use vstd::prelude::*;
use vstd::string::StrSliceExecFns;
use vstd::string::StringExecFns;

verus! {

/// Length of the longest common prefix of `a` and `b`, counted from position `i` on.
pub open spec fn prefix_len_from(a: Seq<char>, b: Seq<char>, i: int) -> int
    decreases a.len() - i,
{
    if 0 <= i < a.len() && i < b.len() && a[i] == b[i] {
        prefix_len_from(a, b, i + 1)
    } else {
        i
    }
}

/// Length, in code points, of the longest common prefix of `a` and `b`.
pub open spec fn common_prefix_len(a: Seq<char>, b: Seq<char>) -> int {
    prefix_len_from(a, b, 0)
}

/// Number of leading code points that `s1` and `s2` share.
pub fn get_common_prefix_len(s1: &String, s2: &String) -> (r: usize)
    ensures
        r == common_prefix_len(s1@, s2@),
{
    let a = s1.as_str();
    let b = s2.as_str();
    let la = a.unicode_len();
    let lb = b.unicode_len();
    let maximum = if la < lb {
        la
    } else {
        lb
    };
    let mut index: usize = 0;
    while index < maximum
        invariant
            a@ == s1@,
            b@ == s2@,
            la == s1@.len(),
            lb == s2@.len(),
            maximum <= la,
            maximum <= lb,
            maximum == la || maximum == lb,
            index <= maximum,
            prefix_len_from(s1@, s2@, index as int) == common_prefix_len(s1@, s2@),
        decreases maximum - index,
    {
        if a.get_char(index) != b.get_char(index) {
            return index;
        }
        index += 1;
    }
    assert(prefix_len_from(s1@, s2@, index as int) == index);
    index
}

/// Whether `c` has Unicode's `Alphabetic` property.
pub uninterp spec fn is_alphabetic_char(c: char) -> bool;

/// Relies on `char::is_alphabetic`: a property of the character alone.
#[verifier::external_body]
fn is_alphabetic(c: char) -> (r: bool)
    ensures
        r == is_alphabetic_char(c),
{
    c.is_alphabetic()
}

/// Position of the first alphabetic code point of `s` at or after `i`, or the length of `s`
/// where there is none.
pub open spec fn first_letter_from(s: Seq<char>, i: int) -> int
    decreases s.len() - i,
{
    if i >= s.len() {
        s.len() as int
    } else if is_alphabetic_char(s[i]) {
        i
    } else {
        first_letter_from(s, i + 1)
    }
}

/// The root id of a stop id: everything before its first letter after position 0, or the
/// whole id where no such letter exists.
pub open spec fn root_stop_id(s: Seq<char>) -> Seq<char> {
    s.take(first_letter_from(s, 1))
}

proof fn lemma_first_letter_from(s: Seq<char>, i: int)
    requires
        0 <= i <= s.len(),
    ensures
        i <= first_letter_from(s, i) <= s.len(),
        forall|j: int| i <= j < first_letter_from(s, i) ==> !is_alphabetic_char(#[trigger] s[j]),
        first_letter_from(s, i) < s.len() ==> is_alphabetic_char(s[first_letter_from(s, i)]),
    decreases s.len() - i,
{
    if i < s.len() && !is_alphabetic_char(s[i]) {
        lemma_first_letter_from(s, i + 1);
    }
}

/// Where `s` has no letter in `[i, len)`, the search from `i` runs to the end.
proof fn lemma_no_letter_from(s: Seq<char>, i: int)
    requires
        0 <= i,
        forall|j: int| i <= j < s.len() ==> !is_alphabetic_char(#[trigger] s[j]),
    ensures
        first_letter_from(s, i) == if i >= s.len() {
            s.len() as int
        } else {
            s.len() as int
        },
    decreases s.len() - i,
{
    if i < s.len() {
        lemma_no_letter_from(s, i + 1);
    }
}

/// The root id that groups a stop with the other platforms of its station.
pub fn get_root_stop_id(stop_id: &String) -> (r: String)
    ensures
        r@ == root_stop_id(stop_id@),
{
    let s = stop_id.as_str();
    let n = s.unicode_len();
    let mut i: usize = 1;
    while i < n
        invariant
            s@ == stop_id@,
            n == stop_id@.len(),
            1 <= i,
            n >= 1 ==> i <= n,
            i <= n ==> first_letter_from(stop_id@, i as int) == first_letter_from(stop_id@, 1),
        decreases n - i,
    {
        if is_alphabetic(s.get_char(i)) {
            let prefix = s.substring_char(0, i);
            return String::from_str(prefix);
        }
        i += 1;
    }
    proof {
        if n >= 1 {
            assert(first_letter_from(stop_id@, n as int) == n);
        }
        assert(stop_id@.take(stop_id@.len() as int) =~= stop_id@);
        if n == 0 {
            assert(stop_id@.take(0) =~= stop_id@);
        }
    }
    stop_id.clone()
}

/// Taking the root id twice gives the root id, and the root id is a prefix of the id.
pub proof fn lemma_root_stop_id_idempotent(id: Seq<char>)
    ensures
        root_stop_id(root_stop_id(id)) == root_stop_id(id),
        root_stop_id(id).len() <= id.len(),
        root_stop_id(id) == id.take(root_stop_id(id).len() as int),
{
    let k = if id.len() >= 1 {
        lemma_first_letter_from(id, 1);
        first_letter_from(id, 1)
    } else {
        0
    };
    let r = id.take(k);
    assert(r == root_stop_id(id));
    assert(forall|j: int| 1 <= j < r.len() ==> r[j] == id[j]);
    lemma_no_letter_from(r, 1);
    assert(r.take(r.len() as int) =~= r);
}

} // verus!
