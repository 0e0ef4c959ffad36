use prahadlo::geo_utils::get_pedestrian_connections;
use prahadlo::gtfs::{bool_from_int, exception_type_from_int, parse_time_of_day, Date, ExceptionType, PlanarPoint};
use prahadlo::sorting::sorted_unique;
use prahadlo::str_utils::{get_common_prefix_len, get_root_stop_id};
use prahadlo::text_interface::{command_from_line, get_time_string, Command};

#[test]
fn common_prefix_counts_code_points() {
    assert_eq!(get_common_prefix_len(&"Budějovická".to_string(), &"Budějovice".to_string()), 9);
    assert_eq!(get_common_prefix_len(&"čč".to_string(), &"čč".to_string()), 2);
    assert_eq!(get_common_prefix_len(&"".to_string(), &"abc".to_string()), 0);
    assert_eq!(get_common_prefix_len(&"Main".to_string(), &"Main St — North".to_string()), 4);
    assert_eq!(get_common_prefix_len(&"xyz".to_string(), &"abc".to_string()), 0);
}

#[test]
fn root_ids() {
    assert_eq!(get_root_stop_id(&"U50S1".to_string()), "U50");
    assert_eq!(get_root_stop_id(&"U50S2".to_string()), "U50");
    assert_eq!(get_root_stop_id(&"T12A".to_string()), "T12");
    assert_eq!(get_root_stop_id(&"12345".to_string()), "12345");
    assert_eq!(get_root_stop_id(&"A".to_string()), "A");
    assert_eq!(get_root_stop_id(&"".to_string()), "");
    assert_eq!(get_root_stop_id(&"UčS".to_string()), "U");
}

#[test]
fn root_id_is_idempotent() {
    for id in ["U50S1", "T12A", "X", "99", "AB12C3"] {
        let r = get_root_stop_id(&id.to_string());
        assert_eq!(get_root_stop_id(&r), r);
        assert!(id.starts_with(r.as_str()));
    }
}

#[test]
fn time_strings() {
    assert_eq!(get_time_string(36360), "10:06:00");
    assert_eq!(get_time_string(5), "00:00:05");
    assert_eq!(get_time_string(90000), "25:00:00");
    assert_eq!(get_time_string(360000 + 59 * 60 + 7), "100:59:07");
}

#[test]
fn walking_links_are_symmetric_and_bounded() {
    let pts = vec![
        PlanarPoint { x: 0, y: 0 },
        PlanarPoint { x: 300, y: 0 },
        PlanarPoint { x: 300, y: 250 },
        PlanarPoint { x: -499, y: 0 },
        PlanarPoint { x: 2000, y: 2000 },
        PlanarPoint { x: -1, y: -1 },
    ];
    let links = get_pedestrian_connections(&pts, 500);
    assert_eq!(links.len(), pts.len());
    for (s, row) in links.iter().enumerate() {
        assert!(row.contains(&(s, 0)));
        for &(t, d) in row {
            assert!(d <= 500);
            assert!(links[t].contains(&(s, d)));
        }
    }
    let mut near0: Vec<(usize, u32)> = links[0].clone();
    near0.sort();
    assert_eq!(near0, vec![(0, 0), (1, 300), (3, 499), (5, 2)]);
    assert_eq!(links[4], vec![(4, 0)]);
}

#[test]
fn dates_are_validated() {
    assert!(Date::new(2020, 2, 29).is_some());
    assert!(Date::new(2021, 2, 29).is_none());
    assert!(Date::new(1900, 2, 29).is_none());
    assert!(Date::new(2000, 2, 29).is_some());
    assert!(Date::new(2020, 13, 1).is_none());
    assert!(Date::new(2020, 4, 31).is_none());
    assert!(Date::new(0, 1, 1).is_none());
}

#[test]
fn flag_fields() {
    assert_eq!(bool_from_int(0), Some(false));
    assert_eq!(bool_from_int(1), Some(true));
    assert_eq!(bool_from_int(2), None);
    assert_eq!(exception_type_from_int(1), Some(ExceptionType::Added));
    assert_eq!(exception_type_from_int(2), Some(ExceptionType::Removed));
    assert_eq!(exception_type_from_int(0), None);
}

#[test]
fn sorting_keeps_each_entry_once() {
    let v = vec![(5, 1), (3, 2), (5, 0), (3, 2), (1, 9)];
    assert_eq!(sorted_unique(&v), vec![(1, 9), (3, 2), (5, 0), (5, 1)]);
    assert_eq!(sorted_unique(&vec![]), vec![]);
}

#[test]
fn times_of_day() {
    assert_eq!(parse_time_of_day("10:05:00"), Some(36300));
    assert_eq!(parse_time_of_day("25:00:00"), Some(90000));
    assert_eq!(parse_time_of_day("1:2:3"), Some(3723));
    assert_eq!(parse_time_of_day("00:00:00"), Some(0));
    assert_eq!(parse_time_of_day("1193046:28:15"), Some(u32::MAX));
    assert_eq!(parse_time_of_day("1193046:28:16"), None);
    assert_eq!(parse_time_of_day("10:05"), None);
    assert_eq!(parse_time_of_day("aa:00:00"), None);
    assert_eq!(parse_time_of_day("10:00:00 "), None);
    assert_eq!(parse_time_of_day("10::00"), None);
    assert_eq!(parse_time_of_day(""), None);
}

#[test]
fn commands_from_lines() {
    assert!(matches!(command_from_line("node 12"), Command::PrintNode(12)));
    assert!(matches!(command_from_line("  node 7  "), Command::PrintNode(7)));
    assert!(matches!(command_from_line("node x"), Command::Invalid));
    assert!(matches!(command_from_line("node 1 2"), Command::Invalid));
    assert!(matches!(command_from_line("node"), Command::Invalid));
    assert!(matches!(command_from_line("stop U50S1"), Command::PrintStop(ref s) if s == "U50S1"));
    assert!(matches!(command_from_line("trip 991_1411_191224"), Command::PrintTrip(ref s) if s == "991_1411_191224"));
    assert!(matches!(command_from_line("help"), Command::Help));
    assert!(matches!(command_from_line("help me"), Command::Help));
    assert!(matches!(command_from_line("fly"), Command::Invalid));
    assert!(matches!(command_from_line(""), Command::Invalid));
}

#[test]
fn connection_commands() {
    match command_from_line("conn 2020-02-01 09:55:00 | Budějovická | Zoo Praha ") {
        Command::GetConnection(date, secs, from, to) => {
            assert_eq!(date, Date::new(2020, 2, 1).unwrap());
            assert_eq!(secs, 9 * 3600 + 55 * 60);
            assert_eq!(from, "Budějovická");
            assert_eq!(to, "Zoo Praha");
        }
        other => panic!("{:?}", other),
    }
    assert!(matches!(command_from_line("conn 2020-02-30 09:55:00 | A | B"), Command::Invalid));
    assert!(matches!(command_from_line("conn 2020-02-01 09:55:00 | A"), Command::Invalid));
    assert!(matches!(command_from_line("conn 2020-02-01 09:55:00 | A | B | C"), Command::Invalid));
    assert!(matches!(command_from_line("conn yesterday | A | B"), Command::Invalid));
    assert!(matches!(command_from_line("conn"), Command::Invalid));
}
