use vstd::prelude::*;
use chrono::Datelike;
use std::collections::HashMap;
use vstd::string::StrSliceExecFns;
use crate::sorting::sorted_unique;
use crate::sorting::strictly_sorted;
use crate::sorting::pair_lt;

verus! {

/// A calendar date of the proleptic Gregorian calendar.
#[derive(Clone, Copy, Debug, PartialEq, Eq, Structural)]
pub struct Date {
    pub year: i32,
    pub month: u32,
    pub day: u32,
}

/// Whether `year` is a leap year of the Gregorian calendar.
pub open spec fn is_leap_year(year: int) -> bool {
    (year % 4 == 0 && year % 100 != 0) || year % 400 == 0
}

/// Number of days of `month` in `year`.
pub open spec fn days_in_month(year: int, month: int) -> int {
    if month == 2 {
        if is_leap_year(year) {
            29
        } else {
            28
        }
    } else if month == 4 || month == 6 || month == 9 || month == 11 {
        30
    } else {
        31
    }
}

/// Day of the week of a date with a positive year, 0 for Monday up to 6 for Sunday.
pub open spec fn weekday_index(year: int, month: int, day: int) -> int {
    let y = if month < 3 {
        year - 1
    } else {
        year
    };
    let m = if month < 3 {
        month + 12
    } else {
        month
    };
    // 0 is Saturday in this congruence
    let h = (day + (13 * (m + 1)) / 5 + y + y / 4 - y / 100 + y / 400) % 7;
    (h + 5) % 7
}

impl Date {
    /// The date exists, with a year of four digits.
    pub open spec fn is_valid(&self) -> bool {
        &&& 1 <= self.year <= 9999
        &&& 1 <= self.month <= 12
        &&& 1 <= self.day <= days_in_month(self.year as int, self.month as int)
    }

    /// Whether `self` comes on or before `other`, comparing year, then month, then day.
    pub open spec fn spec_on_or_before(&self, other: Date) -> bool {
        self.year < other.year || (self.year == other.year && (self.month < other.month || (
        self.month == other.month && self.day <= other.day)))
    }

    /// The date of the given year, month and day, where it exists.
    pub fn new(year: i32, month: u32, day: u32) -> (r: Option<Date>)
        ensures
            r is Some <==> (Date { year, month, day }).is_valid(),
            r matches Some(d) ==> d == (Date { year, month, day }),
    {
        if year < 1 || year > 9999 || month < 1 || month > 12 || day < 1 {
            return None;
        }
        let leap = (year % 4 == 0 && year % 100 != 0) || year % 400 == 0;
        let limit: u32 = if month == 2 {
            if leap {
                29
            } else {
                28
            }
        } else if month == 4 || month == 6 || month == 9 || month == 11 {
            30
        } else {
            31
        };
        if day > limit {
            None
        } else {
            Some(Date { year, month, day })
        }
    }

    /// Whether `self` comes on or before `other`.
    pub fn is_on_or_before(&self, other: &Date) -> (r: bool)
        ensures
            r == self.spec_on_or_before(*other),
    {
        self.year < other.year || (self.year == other.year && (self.month < other.month || (
        self.month == other.month && self.day <= other.day)))
    }
}

/// Relies on chrono's `NaiveDate::from_ymd_opt` and `Datelike::weekday`: a valid date gives
/// its day of the week, counted from Monday.
#[verifier::external_body]
fn weekday_from_monday(date: &Date) -> (r: Option<u32>)
    ensures
        date.is_valid() ==> r == Some(
            weekday_index(date.year as int, date.month as int, date.day as int) as u32,
        ),
{
    match chrono::NaiveDate::from_ymd_opt(date.year, date.month, date.day) {
        Some(d) => Some(d.weekday().num_days_from_monday()),
        None => None,
    }
}

pub struct Agency {
    pub agency_id: String,
    pub agency_name: String,
    pub agency_url: String,
    pub agency_timezone: String,
    pub agency_lang: String,
    pub agency_phone: String,
}

pub struct Route {
    pub route_id: String,
    pub agency_id: String,
    pub route_short_name: String,
    pub route_long_name: String,
    pub route_type: u32,
    pub route_url: Option<String>,
    pub route_color: Option<String>,
    pub route_text_color: Option<String>,
    pub is_night: bool,
}

/// One call of a trip at a stop; times are seconds since midnight and may pass 86400.
pub struct StopTime {
    pub trip_id: String,
    pub arrival_time: u32,
    pub departure_time: u32,
    pub stop_id: String,
    pub stop_sequence: u32,
    pub stop_headsign: Option<String>,
    pub pickup_type: u8,
    pub drop_off_type: u8,
}

pub struct Trip {
    pub route_id: String,
    pub service_id: String,
    pub trip_id: String,
    pub trip_headsign: Option<String>,
    pub trip_short_name: Option<String>,
    pub direction_id: u8,
    pub block_id: Option<String>,
    pub shape_id: Option<String>,
    pub wheelchair_accessible: Option<u8>,
    pub bikes_allowed: Option<u8>,
    pub exceptional: Option<u8>,
    pub trip_operation_type: Option<u8>,
    pub stop_times: Vec<StopTime>,
}

/// Whether an exception adds a day to a service or removes it.
#[derive(Clone, Copy, Debug, PartialEq, Eq, Structural)]
pub enum ExceptionType {
    Added,
    Removed,
}

pub struct ServiceException {
    pub service_id: String,
    pub date: Date,
    pub exception_type: ExceptionType,
}

pub struct Service {
    pub service_id: String,
    pub monday: bool,
    pub tuesday: bool,
    pub wednesday: bool,
    pub thursday: bool,
    pub friday: bool,
    pub saturday: bool,
    pub sunday: bool,
    pub start_date: Date,
    pub end_date: Date,
    pub exceptions: Vec<ServiceException>,
}

/// A point of the metric plane that stop coordinates are projected to, in metres.
#[derive(Clone, Copy, Debug, PartialEq, Eq, Structural)]
pub struct PlanarPoint {
    pub x: i32,
    pub y: i32,
}

/// A stop; its position is already projected to the metric plane.
pub struct Stop {
    pub stop_id: String,
    pub stop_name: String,
    pub position: PlanarPoint,
    pub zone_id: String,
    pub stop_url: Option<String>,
    pub location_type: u8,
    pub parent_station: Option<String>,
    pub wheelchair_boarding: Option<i32>,
    pub level_id: Option<String>,
    pub platform_code: Option<String>,
}

/// The type of the first exception of `exceptions` from position `i` on that falls on `date`.
pub open spec fn exception_from(exceptions: Seq<ServiceException>, date: Date, i: int) -> Option<
    ExceptionType,
>
    decreases exceptions.len() - i,
{
    if i < 0 || i >= exceptions.len() {
        None
    } else if exceptions[i].date == date {
        Some(exceptions[i].exception_type)
    } else {
        exception_from(exceptions, date, i + 1)
    }
}

/// Whether the weekly pattern of `service` runs on weekday `w` (0 is Monday).
pub open spec fn runs_on_weekday(service: &Service, w: int) -> bool {
    if w == 0 {
        service.monday
    } else if w == 1 {
        service.tuesday
    } else if w == 2 {
        service.wednesday
    } else if w == 3 {
        service.thursday
    } else if w == 4 {
        service.friday
    } else if w == 5 {
        service.saturday
    } else {
        service.sunday
    }
}

/// Whether `service` operates on `date`: an exception for that date decides; without one,
/// the date must lie in the service's range and on one of its weekdays.
pub open spec fn operates_on(service: &Service, date: Date) -> bool {
    match exception_from(service.exceptions@, date, 0) {
        Some(ExceptionType::Added) => true,
        Some(ExceptionType::Removed) => false,
        None => {
            &&& service.start_date.spec_on_or_before(date)
            &&& date.spec_on_or_before(service.end_date)
            &&& runs_on_weekday(
                service,
                weekday_index(date.year as int, date.month as int, date.day as int),
            )
        },
    }
}

/// Whether the trips of `service` run on `date`.
pub fn does_trip_operate(date: &Date, service: &Service) -> (r: bool)
    requires
        date.is_valid(),
    ensures
        r == operates_on(service, *date),
{
    let mut i: usize = 0;
    while i < service.exceptions.len()
        invariant
            i <= service.exceptions.len(),
            exception_from(service.exceptions@, *date, i as int) == exception_from(
                service.exceptions@,
                *date,
                0,
            ),
        decreases service.exceptions.len() - i,
    {
        let e = &service.exceptions[i];
        if e.date == *date {
            return match e.exception_type {
                ExceptionType::Added => true,
                ExceptionType::Removed => false,
            };
        }
        i += 1;
    }
    if !service.start_date.is_on_or_before(date) || !date.is_on_or_before(&service.end_date) {
        return false;
    }
    let w = match weekday_from_monday(date) {
        Some(w) => w,
        None => {
            return false;
        },
    };
    if w == 0 {
        service.monday
    } else if w == 1 {
        service.tuesday
    } else if w == 2 {
        service.wednesday
    } else if w == 3 {
        service.thursday
    } else if w == 4 {
        service.friday
    } else if w == 5 {
        service.saturday
    } else {
        service.sunday
    }
}

impl ServiceException {
    /// A copy of the exception.
    pub fn duplicate(&self) -> (r: ServiceException)
        ensures
            r == *self,
    {
        ServiceException {
            service_id: self.service_id.clone(),
            date: self.date,
            exception_type: self.exception_type,
        }
    }
}

/// The exceptions of `rows` that name service `id`, in their order.
pub open spec fn exceptions_for(rows: Seq<ServiceException>, id: Seq<char>) -> Seq<ServiceException> {
    rows.filter(|e: ServiceException| e.service_id@ == id)
}

/// Index of the service with id `id`; the map is a fast path whose answer is checked, with a
/// search in order on a miss.
pub(crate) fn find_service_index(index: &HashMap<String, usize>, services: &Vec<Service>, id: &String) -> (r:
    Option<usize>)
    ensures
        r matches Some(s) ==> s < services.len() && services@[s as int].service_id@ == id@,
        r is None ==> forall|s: int|
            0 <= s < services.len() ==> (#[trigger] services@[s]).service_id@ != id@,
{
    if let Some(s) = index.get(id) {
        let s = *s;
        if s < services.len() && services[s].service_id == *id {
            return Some(s);
        }
    }
    let mut s: usize = 0;
    while s < services.len()
        invariant
            s <= services.len(),
            forall|k: int| 0 <= k < s ==> (#[trigger] services@[k]).service_id@ != id@,
        decreases services.len() - s,
    {
        if services[s].service_id == *id {
            return Some(s);
        }
        s += 1;
    }
    None
}

/// Appends each exception to the service it names, in the order given. Fails with the position
/// of the first exception that names no service, leaving the services as they were before it.
pub fn load_service_exceptions(services: &mut Vec<Service>, exceptions: &Vec<ServiceException>) -> (r:
    Result<(), usize>)
    requires
        forall|s: int, t: int|
            0 <= s < t < old(services).len() ==> (#[trigger] old(services)@[s]).service_id@
                != (#[trigger] old(services)@[t]).service_id@,
    ensures
        final(services).len() == old(services).len(),
        r matches Err(i) ==> i < exceptions.len() && forall|s: int|
            0 <= s < old(services).len() ==> (#[trigger] old(services)@[s]).service_id@
                != exceptions@[i as int].service_id@,
        r is Ok ==> forall|s: int|
            0 <= s < final(services).len() ==> {
                let old_s = old(services)@[s];
                let new_s = #[trigger] final(services)@[s];
                &&& new_s.service_id == old_s.service_id
                &&& new_s.monday == old_s.monday && new_s.tuesday == old_s.tuesday
                &&& new_s.wednesday == old_s.wednesday && new_s.thursday == old_s.thursday
                &&& new_s.friday == old_s.friday && new_s.saturday == old_s.saturday
                &&& new_s.sunday == old_s.sunday
                &&& new_s.start_date == old_s.start_date && new_s.end_date == old_s.end_date
                &&& new_s.exceptions@ == old_s.exceptions@ + exceptions_for(
                    exceptions@,
                    old_s.service_id@,
                )
            },
        r is Ok <==> forall|i: int|
            0 <= i < exceptions.len() ==> exists|s: int|
                0 <= s < old(services).len() && (#[trigger] old(services)@[s]).service_id@
                    == (#[trigger] exceptions@[i]).service_id@,
{
    let mut index: HashMap<String, usize> = HashMap::new();
    let mut k: usize = 0;
    while k < services.len()
        invariant
            services@ == old(services)@,
        decreases services.len() - k,
    {
        index.insert(services[k].service_id.clone(), k);
        k += 1;
    }
    let ghost orig = services@;
    let mut i: usize = 0;
    while i < exceptions.len()
        invariant
            orig == old(services)@,
            i <= exceptions.len(),
            services.len() == orig.len(),
            forall|s: int, t: int|
                0 <= s < t < orig.len() ==> (#[trigger] orig[s]).service_id@
                    != (#[trigger] orig[t]).service_id@,
            forall|j: int|
                0 <= j < i ==> exists|s: int|
                    0 <= s < orig.len() && (#[trigger] orig[s]).service_id@
                        == (#[trigger] exceptions@[j]).service_id@,
            forall|s: int|
                0 <= s < services.len() ==> {
                    let old_s = orig[s];
                    let new_s = #[trigger] services@[s];
                    &&& new_s.service_id == old_s.service_id
                    &&& new_s.monday == old_s.monday && new_s.tuesday == old_s.tuesday
                    &&& new_s.wednesday == old_s.wednesday && new_s.thursday == old_s.thursday
                    &&& new_s.friday == old_s.friday && new_s.saturday == old_s.saturday
                    &&& new_s.sunday == old_s.sunday
                    &&& new_s.start_date == old_s.start_date && new_s.end_date == old_s.end_date
                    &&& new_s.exceptions@ == old_s.exceptions@ + exceptions_for(
                        exceptions@.subrange(0, i as int),
                        old_s.service_id@,
                    )
                },
        decreases exceptions.len() - i,
    {
        let e = &exceptions[i];
        match find_service_index(&index, services, &e.service_id) {
            Some(s) => {
                let ghost before = services@;
                let copy = e.duplicate();
                services[s].exceptions.push(copy);
                proof {
                    assert forall|t: int| 0 <= t < services.len() implies {
                        let old_s = orig[t];
                        let new_s = #[trigger] services@[t];
                        &&& new_s.service_id == old_s.service_id
                        &&& new_s.monday == old_s.monday && new_s.tuesday == old_s.tuesday
                        &&& new_s.wednesday == old_s.wednesday && new_s.thursday == old_s.thursday
                        &&& new_s.friday == old_s.friday && new_s.saturday == old_s.saturday
                        &&& new_s.sunday == old_s.sunday
                        &&& new_s.start_date == old_s.start_date && new_s.end_date == old_s.end_date
                        &&& new_s.exceptions@ == old_s.exceptions@ + exceptions_for(
                            exceptions@.subrange(0, i + 1),
                            old_s.service_id@,
                        )
                    } by {
                        let rows = exceptions@.subrange(0, i + 1);
                        assert(rows.drop_last() =~= exceptions@.subrange(0, i as int));
                        assert(rows.last() == *e);
                        reveal(Seq::filter);
                        if t == s {
                            assert(services@[t].exceptions@ =~= orig[t].exceptions@ + exceptions_for(
                                rows,
                                orig[t].service_id@,
                            ));
                        } else {
                            assert(before[t] == services@[t]);
                            assert(e.service_id@ != orig[t].service_id@);
                        }
                    }
                    assert(exists|s2: int|
                        0 <= s2 < orig.len() && (#[trigger] orig[s2]).service_id@
                            == (#[trigger] exceptions@[i as int]).service_id@);
                }
            },
            None => {
                proof {
                    assert forall|t: int| 0 <= t < orig.len() implies (#[trigger] orig[t]).service_id@
                        != exceptions@[i as int].service_id@ by {
                        assert(services@[t].service_id == orig[t].service_id);
                    }
                }
                return Err(i);
            },
        }
        i += 1;
    }
    proof {
        assert(exceptions@.subrange(0, exceptions.len() as int) =~= exceptions@);
    }
    Ok(())
}

fn duplicate_text(s: &Option<String>) -> (r: Option<String>)
    ensures
        r == *s,
{
    match s {
        Some(t) => Some(t.clone()),
        None => None,
    }
}

impl StopTime {
    /// A copy of the stop time.
    pub fn duplicate(&self) -> (r: StopTime)
        ensures
            r == *self,
    {
        StopTime {
            trip_id: self.trip_id.clone(),
            arrival_time: self.arrival_time,
            departure_time: self.departure_time,
            stop_id: self.stop_id.clone(),
            stop_sequence: self.stop_sequence,
            stop_headsign: duplicate_text(&self.stop_headsign),
            pickup_type: self.pickup_type,
            drop_off_type: self.drop_off_type,
        }
    }
}

/// The stop times of `rows` that belong to trip `id`, in their order.
pub open spec fn stop_times_for(rows: Seq<StopTime>, id: Seq<char>) -> Seq<StopTime> {
    rows.filter(|st: StopTime| st.trip_id@ == id)
}

/// Stop sequence numbers do not decrease along `v`.
pub open spec fn sorted_by_sequence(v: Seq<StopTime>) -> bool {
    forall|i: int, j: int|
        0 <= i <= j < v.len() ==> (#[trigger] v[i]).stop_sequence <= (#[trigger] v[j]).stop_sequence
}

/// The stop times of `v` ordered by stop sequence, ties kept in their order.
fn sort_stop_times(v: &Vec<StopTime>) -> (r: Vec<StopTime>)
    ensures
        sorted_by_sequence(r@),
        forall|x: StopTime| r@.contains(x) <==> v@.contains(x),
{
    let mut keys: Vec<(u32, usize)> = Vec::new();
    let mut i: usize = 0;
    while i < v.len()
        invariant
            i <= v.len(),
            keys.len() == i,
            forall|j: int| 0 <= j < i ==> #[trigger] keys@[j] == (v@[j].stop_sequence, j as usize),
        decreases v.len() - i,
    {
        keys.push((v[i].stop_sequence, i));
        i += 1;
    }
    let sorted = sorted_unique(&keys);
    proof {
        assert forall|q: int| 0 <= q < sorted.len() implies (#[trigger] sorted@[q]).1 < v.len()
            && sorted@[q].0 == v@[sorted@[q].1 as int].stop_sequence by {
            assert(sorted@.contains(sorted@[q]));
            let j = choose|j: int| 0 <= j < keys.len() && keys@[j] == sorted@[q];
            assert(keys@[j] == sorted@[q]);
        }
    }
    let mut r: Vec<StopTime> = Vec::new();
    let mut q: usize = 0;
    while q < sorted.len()
        invariant
            q <= sorted.len(),
            r.len() == q,
            strictly_sorted(sorted@),
            forall|q: int| 0 <= q < sorted.len() ==> (#[trigger] sorted@[q]).1 < v.len()
                && sorted@[q].0 == v@[sorted@[q].1 as int].stop_sequence,
            forall|j: int| 0 <= j < q ==> #[trigger] r@[j] == v@[sorted@[j].1 as int],
        decreases sorted.len() - q,
    {
        r.push(v[sorted[q].1].duplicate());
        q += 1;
    }
    proof {
        assert forall|a: int, b: int| 0 <= a <= b < r.len() implies (#[trigger] r@[a]).stop_sequence
            <= (#[trigger] r@[b]).stop_sequence by {
            if a < b {
                assert(pair_lt(sorted@[a], sorted@[b]));
            }
        }
        assert forall|x: StopTime| r@.contains(x) <==> v@.contains(x) by {
            if r@.contains(x) {
                let j = choose|j: int| 0 <= j < r.len() && r@[j] == x;
                assert(r@[j] == v@[sorted@[j].1 as int]);
            }
            if v@.contains(x) {
                let j = choose|j: int| 0 <= j < v.len() && v@[j] == x;
                assert(keys@[j] == (v@[j].stop_sequence, j as usize));
                assert(keys@.contains(keys@[j]));
                assert(sorted@.contains(keys@[j]));
                let q = choose|q: int| 0 <= q < sorted.len() && sorted@[q] == keys@[j];
                assert(r@[q] == x);
            }
        }
    }
    r
}

/// Index of the trip with id `id`; the map is a fast path whose answer is checked, with a search
/// in order on a miss.
pub(crate) fn find_trip_index(index: &HashMap<String, usize>, trips: &Vec<Trip>, id: &String) -> (r: Option<usize>)
    ensures
        r matches Some(t) ==> t < trips.len() && trips@[t as int].trip_id@ == id@,
        r is None ==> forall|t: int| 0 <= t < trips.len() ==> (#[trigger] trips@[t]).trip_id@ != id@,
{
    if let Some(t) = index.get(id) {
        let t = *t;
        if t < trips.len() && trips[t].trip_id == *id {
            return Some(t);
        }
    }
    let mut t: usize = 0;
    while t < trips.len()
        invariant
            t <= trips.len(),
            forall|k: int| 0 <= k < t ==> (#[trigger] trips@[k]).trip_id@ != id@,
        decreases trips.len() - t,
    {
        if trips[t].trip_id == *id {
            return Some(t);
        }
        t += 1;
    }
    None
}

/// Adds each stop time to the trip it names, then orders every trip's stop times by stop
/// sequence. Fails with the position of the first stop time that names no trip.
pub fn load_stop_times(trips: &mut Vec<Trip>, stop_times: &Vec<StopTime>) -> (r: Result<(), usize>)
    requires
        forall|s: int, t: int|
            0 <= s < t < old(trips).len() ==> (#[trigger] old(trips)@[s]).trip_id@
                != (#[trigger] old(trips)@[t]).trip_id@,
    ensures
        final(trips).len() == old(trips).len(),
        r matches Err(i) ==> i < stop_times.len() && forall|t: int|
            0 <= t < old(trips).len() ==> (#[trigger] old(trips)@[t]).trip_id@
                != stop_times@[i as int].trip_id@,
        r is Ok <==> forall|i: int|
            0 <= i < stop_times.len() ==> exists|t: int|
                0 <= t < old(trips).len() && (#[trigger] old(trips)@[t]).trip_id@
                    == (#[trigger] stop_times@[i]).trip_id@,
        r is Ok ==> forall|t: int|
            0 <= t < final(trips).len() ==> {
                let old_t = old(trips)@[t];
                let new_t = #[trigger] final(trips)@[t];
                &&& new_t.trip_id == old_t.trip_id
                &&& new_t.route_id == old_t.route_id
                &&& new_t.service_id == old_t.service_id
                &&& new_t.trip_headsign == old_t.trip_headsign
                &&& sorted_by_sequence(new_t.stop_times@)
                &&& forall|x: StopTime|
                    new_t.stop_times@.contains(x) <==> (old_t.stop_times@ + stop_times_for(
                        stop_times@,
                        old_t.trip_id@,
                    )).contains(x)
            },
{
    let mut index: HashMap<String, usize> = HashMap::new();
    let mut k: usize = 0;
    while k < trips.len()
        invariant
            trips@ == old(trips)@,
        decreases trips.len() - k,
    {
        index.insert(trips[k].trip_id.clone(), k);
        k += 1;
    }
    let ghost orig = trips@;
    let mut i: usize = 0;
    while i < stop_times.len()
        invariant
            orig == old(trips)@,
            i <= stop_times.len(),
            trips.len() == orig.len(),
            forall|s: int, t: int|
                0 <= s < t < orig.len() ==> (#[trigger] orig[s]).trip_id@
                    != (#[trigger] orig[t]).trip_id@,
            forall|j: int|
                0 <= j < i ==> exists|t: int|
                    0 <= t < orig.len() && (#[trigger] orig[t]).trip_id@
                        == (#[trigger] stop_times@[j]).trip_id@,
            forall|t: int|
                0 <= t < trips.len() ==> {
                    let old_t = orig[t];
                    let new_t = #[trigger] trips@[t];
                    &&& new_t.trip_id == old_t.trip_id
                    &&& new_t.route_id == old_t.route_id
                    &&& new_t.service_id == old_t.service_id
                    &&& new_t.trip_headsign == old_t.trip_headsign
                    &&& new_t.stop_times@ == old_t.stop_times@ + stop_times_for(
                        stop_times@.subrange(0, i as int),
                        old_t.trip_id@,
                    )
                },
        decreases stop_times.len() - i,
    {
        let st = &stop_times[i];
        match find_trip_index(&index, trips, &st.trip_id) {
            Some(t) => {
                let ghost before = trips@;
                let copy = st.duplicate();
                trips[t].stop_times.push(copy);
                proof {
                    assert forall|u: int| 0 <= u < trips.len() implies {
                        let old_t = orig[u];
                        let new_t = #[trigger] trips@[u];
                        &&& new_t.trip_id == old_t.trip_id
                        &&& new_t.route_id == old_t.route_id
                        &&& new_t.service_id == old_t.service_id
                        &&& new_t.trip_headsign == old_t.trip_headsign
                        &&& new_t.stop_times@ == old_t.stop_times@ + stop_times_for(
                            stop_times@.subrange(0, i + 1),
                            old_t.trip_id@,
                        )
                    } by {
                        let rows = stop_times@.subrange(0, i + 1);
                        assert(rows.drop_last() =~= stop_times@.subrange(0, i as int));
                        assert(rows.last() == *st);
                        reveal(Seq::filter);
                        if u == t {
                            assert(trips@[u].stop_times@ =~= orig[u].stop_times@ + stop_times_for(
                                rows,
                                orig[u].trip_id@,
                            ));
                        } else {
                            assert(before[u] == trips@[u]);
                            assert(st.trip_id@ != orig[u].trip_id@);
                        }
                    }
                    assert(exists|t2: int|
                        0 <= t2 < orig.len() && (#[trigger] orig[t2]).trip_id@
                            == (#[trigger] stop_times@[i as int]).trip_id@);
                }
            },
            None => {
                proof {
                    assert forall|u: int| 0 <= u < orig.len() implies (#[trigger] orig[u]).trip_id@
                        != stop_times@[i as int].trip_id@ by {
                        assert(trips@[u].trip_id == orig[u].trip_id);
                    }
                }
                return Err(i);
            },
        }
        i += 1;
    }
    proof {
        assert(stop_times@.subrange(0, stop_times.len() as int) =~= stop_times@);
    }
    let ghost appended = trips@;
    let mut t: usize = 0;
    while t < trips.len()
        invariant
            orig == old(trips)@,
            t <= trips.len(),
            trips.len() == orig.len(),
            appended.len() == orig.len(),
            forall|u: int|
                0 <= u < trips.len() ==> {
                    let old_t = orig[u];
                    let mid_t = #[trigger] appended[u];
                    &&& mid_t.trip_id == old_t.trip_id
                    &&& mid_t.route_id == old_t.route_id
                    &&& mid_t.service_id == old_t.service_id
                    &&& mid_t.trip_headsign == old_t.trip_headsign
                    &&& mid_t.stop_times@ == old_t.stop_times@ + stop_times_for(
                        stop_times@,
                        old_t.trip_id@,
                    )
                },
            forall|u: int|
                t <= u < trips.len() ==> #[trigger] trips@[u] == appended[u],
            forall|u: int|
                0 <= u < t ==> {
                    let mid_t = appended[u];
                    let new_t = #[trigger] trips@[u];
                    &&& new_t.trip_id == mid_t.trip_id
                    &&& new_t.route_id == mid_t.route_id
                    &&& new_t.service_id == mid_t.service_id
                    &&& new_t.trip_headsign == mid_t.trip_headsign
                    &&& sorted_by_sequence(new_t.stop_times@)
                    &&& forall|x: StopTime|
                        new_t.stop_times@.contains(x) <==> mid_t.stop_times@.contains(x)
                },
        decreases trips.len() - t,
    {
        let sorted = sort_stop_times(&trips[t].stop_times);
        let ghost before = trips@;
        trips[t].stop_times = sorted;
        proof {
            assert forall|u: int| t + 1 <= u < trips.len() implies #[trigger] trips@[u] == appended[u] by {
                assert(before[u] == trips@[u]);
            }
            assert forall|u: int| 0 <= u < t + 1 implies {
                let mid_t = appended[u];
                let new_t = #[trigger] trips@[u];
                &&& new_t.trip_id == mid_t.trip_id
                &&& new_t.route_id == mid_t.route_id
                &&& new_t.service_id == mid_t.service_id
                &&& new_t.trip_headsign == mid_t.trip_headsign
                &&& sorted_by_sequence(new_t.stop_times@)
                &&& forall|x: StopTime|
                    new_t.stop_times@.contains(x) <==> mid_t.stop_times@.contains(x)
            } by {
                if u < t {
                    assert(before[u] == trips@[u]);
                }
            }
        }
        t += 1;
    }
    Ok(())
}

/// A `0|1` field as a boolean; any other value is invalid.
pub fn bool_from_int(value: u8) -> (r: Option<bool>)
    ensures
        r is Some <==> value <= 1,
        r matches Some(b) ==> b == (value == 1),
{
    if value == 0 {
        Some(false)
    } else if value == 1 {
        Some(true)
    } else {
        None
    }
}

/// An `exception_type` field: 1 adds the date to the service, 2 removes it; any other value is
/// invalid.
pub fn exception_type_from_int(value: u8) -> (r: Option<ExceptionType>)
    ensures
        r is Some <==> (value == 1 || value == 2),
        r matches Some(e) ==> (e == ExceptionType::Added <==> value == 1),
{
    if value == 1 {
        Some(ExceptionType::Added)
    } else if value == 2 {
        Some(ExceptionType::Removed)
    } else {
        None
    }
}

/// An ASCII decimal digit.
pub open spec fn is_digit(c: char) -> bool {
    '0' <= c && c <= '9'
}

/// The value of a string of decimal digits.
pub open spec fn digits_value(s: Seq<char>) -> int
    decreases s.len(),
{
    if s.len() == 0 {
        0
    } else {
        digits_value(s.drop_last()) * 10 + (s.last() as int - '0' as int)
    }
}

/// A non-empty string of decimal digits.
pub open spec fn all_digits(s: Seq<char>) -> bool {
    s.len() > 0 && forall|k: int| 0 <= k < s.len() ==> is_digit(#[trigger] s[k])
}

/// `s` is `H:M:S` with the colons at `i` and `j` and digits only in each field.
pub open spec fn time_fields(s: Seq<char>, i: int, j: int) -> bool {
    &&& 0 < i < j < s.len()
    &&& s[i] == ':'
    &&& s[j] == ':'
    &&& all_digits(s.subrange(0, i))
    &&& all_digits(s.subrange(i + 1, j))
    &&& all_digits(s.subrange(j + 1, s.len() as int))
}

/// Seconds since midnight of `H:M:S` split at `i` and `j`; the hour may pass 23.
pub open spec fn time_of_day(s: Seq<char>, i: int, j: int) -> int {
    3600 * digits_value(s.subrange(0, i)) + 60 * digits_value(s.subrange(i + 1, j)) + digits_value(
        s.subrange(j + 1, s.len() as int),
    )
}

/// Values from this bound on are all read as the bound.
pub open spec fn capped(v: int) -> int {
    if v >= 0x1_0000_0000 {
        0x1_0000_0000
    } else {
        v
    }
}

proof fn lemma_digits_value_nonneg(s: Seq<char>)
    requires
        forall|k: int| 0 <= k < s.len() ==> is_digit(#[trigger] s[k]),
    ensures
        digits_value(s) >= 0,
    decreases s.len(),
{
    if s.len() > 0 {
        lemma_digits_value_nonneg(s.drop_last());
    }
}

/// Reads the digits of `s` from `start` on: where they end, and their value, capped.
fn read_number(s: &str, n: usize, start: usize) -> (r: (usize, u64))
    requires
        n == s@.len(),
        start <= n,
    ensures
        start <= r.0 <= n,
        forall|k: int| start <= k < r.0 ==> is_digit(#[trigger] s@[k]),
        r.0 < n ==> !is_digit(s@[r.0 as int]),
        r.1 == capped(digits_value(s@.subrange(start as int, r.0 as int))),
{
    let mut k: usize = start;
    let mut v: u64 = 0;
    while k < n
        invariant
            n == s@.len(),
            start <= k <= n,
            forall|q: int| start <= q < k ==> is_digit(#[trigger] s@[q]),
            v == capped(digits_value(s@.subrange(start as int, k as int))),
        ensures
            start <= k <= n,
            forall|q: int| start <= q < k ==> is_digit(#[trigger] s@[q]),
            v == capped(digits_value(s@.subrange(start as int, k as int))),
            k < n ==> !is_digit(s@[k as int]),
        decreases n - k,
    {
        let c = s.get_char(k);
        if !('0' <= c && c <= '9') {
            break;
        }
        let d = (c as u32 - '0' as u32) as u64;
        let ghost prefix = s@.subrange(start as int, k as int);
        let ghost next = s@.subrange(start as int, k + 1);
        proof {
            assert(next.drop_last() =~= prefix);
            assert(next.last() == c);
            lemma_digits_value_nonneg(prefix);
            assert(digits_value(next) == digits_value(prefix) * 10 + d);
        }
        v = if v * 10 + d >= 0x1_0000_0000 {
            0x1_0000_0000
        } else {
            v * 10 + d
        };
        k += 1;
    }
    (k, v)
}

/// Where the field of digits of `s` starting at `start` ends: the first non-digit from there on.
proof fn lemma_field_end(s: Seq<char>, start: int, e: int, i: int)
    requires
        0 <= start <= e <= s.len(),
        forall|k: int| start <= k < e ==> is_digit(#[trigger] s[k]),
        e < s.len() ==> !is_digit(s[e]),
        start <= i < s.len(),
        !is_digit(s[i]),
        forall|k: int| start <= k < i ==> is_digit(#[trigger] s[k]),
    ensures
        i == e,
{
    if i < e {
        assert(is_digit(s[i]));
    }
    if e < i {
        assert(is_digit(s[e]));
    }
}

/// A time of day `H:M:S` as seconds since midnight; the hour may pass 23. None where the text
/// is not three fields of digits separated by colons, or the value does not fit in 32 bits.
pub fn parse_time_of_day(s: &str) -> (r: Option<u32>)
    ensures
        r matches Some(v) ==> exists|i: int, j: int|
            time_fields(s@, i, j) && v == time_of_day(s@, i, j),
        r is None ==> forall|i: int, j: int|
            time_fields(s@, i, j) ==> time_of_day(s@, i, j) > u32::MAX,
{
    let n = s.unicode_len();
    let (e1, h) = read_number(s, n, 0);
    if e1 == 0 || e1 >= n || s.get_char(e1) != ':' {
        proof {
            assert forall|i: int, j: int| time_fields(s@, i, j) implies time_of_day(s@, i, j)
                > u32::MAX by {
                assert(forall|k: int| 0 <= k < i ==> is_digit(#[trigger] s@[k])) by {
                    assert forall|k: int| 0 <= k < i implies is_digit(#[trigger] s@[k]) by {
                        assert(s@.subrange(0, i)[k] == s@[k]);
                    }
                }
                lemma_field_end(s@, 0, e1 as int, i);
            }
        }
        return None;
    }
    let (e2, m) = read_number(s, n, e1 + 1);
    if e2 == e1 + 1 || e2 >= n || s.get_char(e2) != ':' {
        proof {
            assert forall|i: int, j: int| time_fields(s@, i, j) implies time_of_day(s@, i, j)
                > u32::MAX by {
                assert forall|k: int| 0 <= k < i implies is_digit(#[trigger] s@[k]) by {
                    assert(s@.subrange(0, i)[k] == s@[k]);
                }
                lemma_field_end(s@, 0, e1 as int, i);
                assert forall|k: int| i + 1 <= k < j implies is_digit(#[trigger] s@[k]) by {
                    assert(s@.subrange(i + 1, j)[k - i - 1] == s@[k]);
                }
                lemma_field_end(s@, e1 + 1, e2 as int, j);
            }
        }
        return None;
    }
    let (e3, sec) = read_number(s, n, e2 + 1);
    if e3 == e2 + 1 || e3 != n {
        proof {
            assert forall|i: int, j: int| time_fields(s@, i, j) implies time_of_day(s@, i, j)
                > u32::MAX by {
                assert forall|k: int| 0 <= k < i implies is_digit(#[trigger] s@[k]) by {
                    assert(s@.subrange(0, i)[k] == s@[k]);
                }
                lemma_field_end(s@, 0, e1 as int, i);
                assert forall|k: int| i + 1 <= k < j implies is_digit(#[trigger] s@[k]) by {
                    assert(s@.subrange(i + 1, j)[k - i - 1] == s@[k]);
                }
                lemma_field_end(s@, e1 + 1, e2 as int, j);
                assert forall|k: int| j + 1 <= k < s@.len() implies is_digit(#[trigger] s@[k]) by {
                    assert(s@.subrange(j + 1, s@.len() as int)[k - j - 1] == s@[k]);
                }
                if e3 < n {
                    assert(is_digit(s@[e3 as int]));
                }
            }
        }
        return None;
    }
    let total: u64 = h * 3600 + m * 60 + sec;
    proof {
        let a = s@.subrange(0, e1 as int);
        let b = s@.subrange(e1 + 1, e2 as int);
        let c = s@.subrange(e2 + 1, n as int);
        assert forall|k: int| 0 <= k < a.len() implies is_digit(#[trigger] a[k]) by {
            assert(a[k] == s@[k]);
        }
        assert forall|k: int| 0 <= k < b.len() implies is_digit(#[trigger] b[k]) by {
            assert(b[k] == s@[e1 + 1 + k]);
        }
        assert forall|k: int| 0 <= k < c.len() implies is_digit(#[trigger] c[k]) by {
            assert(c[k] == s@[e2 + 1 + k]);
        }
        lemma_digits_value_nonneg(a);
        lemma_digits_value_nonneg(b);
        lemma_digits_value_nonneg(c);
        assert(time_fields(s@, e1 as int, e2 as int));
    }
    if total > u32::MAX as u64 {
        proof {
            assert forall|i: int, j: int| time_fields(s@, i, j) implies time_of_day(s@, i, j)
                > u32::MAX by {
                assert forall|k: int| 0 <= k < i implies is_digit(#[trigger] s@[k]) by {
                    assert(s@.subrange(0, i)[k] == s@[k]);
                }
                lemma_field_end(s@, 0, e1 as int, i);
                assert forall|k: int| i + 1 <= k < j implies is_digit(#[trigger] s@[k]) by {
                    assert(s@.subrange(i + 1, j)[k - i - 1] == s@[k]);
                }
                lemma_field_end(s@, e1 + 1, e2 as int, j);
            }
        }
        return None;
    }
    Some(total as u32)
}

} // verus!
