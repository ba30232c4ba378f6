use lem_in::map::{Farm, MapParser, ParseMapError, Room};
use lem_in::moves::move_lines;
use lem_in::quickest::{quickest_routing, route};
use lem_in::solver::{bfs, end_reachable, reconstruct_path, repeated_bfs, update_used_rooms, Path};
use lem_in::text::{
    is_whitespace, parse_i64_at, parse_u32_at, split_at_char, split_fields, trim_bounds,
};
use std::collections::HashSet;

fn lines(text: &[&str]) -> Vec<String> {
    text.iter().map(|l| l.to_string()).collect()
}

fn subject_1_text() -> Vec<String> {
    lines(&[
        "3", "##start", "0 1 0", "##end", "1 5 0", "2 9 0", "3 13 0", "0-2", "2-3", "3-1",
    ])
}

fn parse_err(text: &[&str]) -> ParseMapError {
    match Farm::parse(&lines(text)) {
        Ok(_) => panic!("the description was accepted"),
        Err(e) => e,
    }
}

fn s(x: &str) -> String {
    x.to_string()
}

fn shared_rooms_free(map: &Farm, paths: &[Path]) -> bool {
    let longest = paths.iter().map(Vec::len).max().unwrap();
    for t in 1..longest {
        let mut seen = HashSet::new();
        for path in paths {
            if let Some(&room) = path.get(t) {
                if room != map.start && room != map.end && !seen.insert(room) {
                    return false;
                }
            }
        }
    }
    true
}

#[test]
fn parse_subject_description() {
    let farm = Farm::parse(&subject_1_text()).unwrap();
    assert_eq!(farm.ants, 3);
    assert_eq!(
        farm.rooms,
        vec![Room::new("0", 1, 0), Room::new("1", 5, 0), Room::new("2", 9, 0), Room::new("3", 13, 0)]
    );
    assert_eq!(farm.links, vec![vec![2], vec![3], vec![0, 3], vec![1, 2]]);
    assert_eq!(farm.start, 0);
    assert_eq!(farm.end, 1);
}

#[test]
fn parse_sorts_adjacency_and_keeps_duplicates() {
    let farm = Farm::parse(&lines(&[
        "1", "##start", "a 0 0", "b 0 0", "##end", "c 0 0", "a-c", "a-b", "c-a", "b-b",
    ]))
    .unwrap();
    assert_eq!(farm.links, vec![vec![1, 2, 2], vec![0, 1, 1], vec![0, 0]]);
    assert_eq!(farm.start, 0);
    assert_eq!(farm.end, 2);
}

#[test]
fn parse_skips_comments_and_trims() {
    let mut text = subject_1_text();
    text.insert(0, s("# a comment"));
    text.insert(3, s("   #another one   "));
    text.push(s("#"));
    text[1] = s("  3 \t");
    text[5] = s("\u{3000}##end\u{a0}");
    let farm = Farm::parse(&text).unwrap();
    assert_eq!(farm, Farm::parse(&subject_1_text()).unwrap());
}

#[test]
fn parse_ants_values() {
    assert_eq!(Farm::parse_ants("+7"), Ok(7));
    assert_eq!(Farm::parse_ants("0"), Ok(0));
    assert_eq!(Farm::parse_ants("4294967295"), Ok(4294967295));
    assert_eq!(Farm::parse_ants("4294967296"), Err(ParseMapError::InvalidAntsNumber(s("4294967296"))));
    assert_eq!(Farm::parse_ants("-1"), Err(ParseMapError::InvalidAntsNumber(s("-1"))));
    assert_eq!(Farm::parse_ants(" 5"), Err(ParseMapError::InvalidAntsNumber(s(" 5"))));
    assert_eq!(Farm::parse_ants("+"), Err(ParseMapError::InvalidAntsNumber(s("+"))));
}

#[test]
fn parse_room_values() {
    let rooms = vec![Room::new("taken", 0, 0)];
    assert_eq!(
        Farm::parse_room("r_1  -9223372036854775808 \t +42", &rooms),
        Ok(Room::new("r_1", i64::MIN, 42))
    );
    assert_eq!(
        Farm::parse_room("r 9223372036854775808 0", &rooms),
        Err(ParseMapError::InvalidRoomCoordinate(s("r 9223372036854775808 0"), 'x', s("9223372036854775808")))
    );
    assert_eq!(
        Farm::parse_room("r 1 y", &rooms),
        Err(ParseMapError::InvalidRoomCoordinate(s("r 1 y"), 'y', s("y")))
    );
    assert_eq!(
        Farm::parse_room("a.b 1 2", &rooms),
        Err(ParseMapError::InvalidCharacterInRoomName(s("a.b 1 2"), '.'))
    );
    assert_eq!(Farm::parse_room("Lx 1 2", &rooms), Err(ParseMapError::RoomNameStartsWithL(s("Lx 1 2"))));
    assert_eq!(
        Farm::parse_room("taken 1 2", &rooms),
        Err(ParseMapError::DuplicateRoomName(s("taken 1 2"), s("taken")))
    );
    assert_eq!(Farm::parse_room("a 1", &rooms), Err(ParseMapError::InvalidRoomLine(s("a 1"))));
    assert_eq!(Farm::parse_room("a 1 2 3", &rooms), Err(ParseMapError::InvalidRoomLine(s("a 1 2 3"))));
}

#[test]
fn parse_link_values() {
    let rooms = vec![Room::new("a", 0, 0), Room::new("b", 0, 0)];
    assert_eq!(Farm::parse_link("b-a", &rooms), Ok((1, 0)));
    assert_eq!(Farm::parse_link("a-a", &rooms), Ok((0, 0)));
    assert_eq!(Farm::parse_link("a-b-a", &rooms), Err(ParseMapError::InvalidLinkLine(s("a-b-a"))));
    assert_eq!(Farm::parse_link("ab", &rooms), Err(ParseMapError::InvalidLinkLine(s("ab"))));
    assert_eq!(
        Farm::parse_link("a-", &rooms),
        Err(ParseMapError::UnknownRoomNameInLink(s("a-"), s("")))
    );
    assert_eq!(
        Farm::parse_link("c-a", &rooms),
        Err(ParseMapError::UnknownRoomNameInLink(s("c-a"), s("c")))
    );
}

#[test]
fn parse_errors_of_descriptions() {
    assert_eq!(parse_err(&[]), ParseMapError::MissingAntsNumber);
    assert_eq!(parse_err(&["x"]), ParseMapError::InvalidAntsNumber(s("x")));
    assert_eq!(parse_err(&["##start"]), ParseMapError::InvalidAntsNumber(s("##start")));
    assert_eq!(parse_err(&["2"]), ParseMapError::MissingRooms);
    assert_eq!(parse_err(&["2", "a 0 0"]), ParseMapError::MissingStartRoom);
    assert_eq!(parse_err(&["2", "##start", "a 0 0"]), ParseMapError::MissingEndRoom);
    assert_eq!(parse_err(&["2", "##start", "a 0 0", "##end", "b 0 0"]), ParseMapError::MissingLinks);
    assert_eq!(
        parse_err(&["2", "##start", "a 0 0", "##start"]),
        ParseMapError::MultipleStartRooms
    );
    assert_eq!(parse_err(&["2", "##end", "a 0 0", "##end"]), ParseMapError::MultipleEndRooms);
    assert_eq!(parse_err(&["2", "##foo"]), ParseMapError::InvalidTag(s("##foo")));
    assert_eq!(parse_err(&["2", "##start", "##end"]), ParseMapError::InvalidRoomLine(s("##end")));
    assert_eq!(parse_err(&["2", "a 0 0", "a b"]), ParseMapError::InvalidRoomLine(s("a b")));
    assert_eq!(
        parse_err(&["2", "a 0 0", "a-z"]),
        ParseMapError::UnknownRoomNameInLink(s("a-z"), s("z"))
    );
    assert_eq!(
        parse_err(&["2", "a 0 0", "b 0 0", "a-b", "c 0 0"]),
        ParseMapError::InvalidLinkLine(s("c 0 0"))
    );
    assert_eq!(
        parse_err(&["2", "a 0 0", "b 0 0", "a-b", "##start"]),
        ParseMapError::InvalidLinkLine(s("##start"))
    );
    assert_eq!(parse_err(&["2", "a 0 0", ""]), ParseMapError::InvalidRoomLine(s("")));
}

#[test]
fn parser_fed_line_by_line() {
    let mut parser = MapParser::new();
    for line in subject_1_text() {
        parser.feed_line(&line).unwrap();
    }
    assert_eq!(parser.finish().unwrap(), Farm::parse(&subject_1_text()).unwrap());
    let mut parser = MapParser::new();
    assert_eq!(parser.feed_line("  # only a comment"), Ok(()));
    assert_eq!(parser.finish(), Err(ParseMapError::MissingAntsNumber));
}

#[test]
fn whitespace_matches_std_for_every_char() {
    for u in 0u32..=0x10ffff {
        if let Some(c) = char::from_u32(u) {
            assert_eq!(is_whitespace(c), c.is_whitespace(), "{:#x}", u);
        }
    }
}

fn sample_strings() -> Vec<String> {
    let alphabet = ['a', 'Z', '7', '-', '+', ' ', '\t', '\u{2003}', '\u{85}', 'é', '_', '0'];
    let mut out = vec![String::new()];
    let mut seed: u64 = 0x2545f4914f6cdd1d;
    for len in 1..12 {
        for _ in 0..300 {
            let mut text = String::new();
            for _ in 0..len {
                seed ^= seed << 13;
                seed ^= seed >> 7;
                seed ^= seed << 17;
                text.push(alphabet[(seed % alphabet.len() as u64) as usize]);
            }
            out.push(text);
        }
    }
    out
}

fn pieces(chars: &[char], bounds: &[(usize, usize)]) -> Vec<String> {
    bounds.iter().map(|&(a, b)| chars[a..b].iter().collect()).collect()
}

#[test]
fn tokenizers_match_std() {
    for text in sample_strings() {
        let chars: Vec<char> = text.chars().collect();
        let (lo, hi) = trim_bounds(&chars);
        assert_eq!(chars[lo..hi].iter().collect::<String>(), text.trim());
        let fields = split_fields(&chars, 0, chars.len());
        assert_eq!(pieces(&chars, &fields), text.split_whitespace().collect::<Vec<_>>());
        let parts = split_at_char(&chars, 0, chars.len(), '-');
        assert_eq!(pieces(&chars, &parts), text.split('-').collect::<Vec<_>>());
    }
}

#[test]
fn integer_parsing_matches_std() {
    let mut samples = sample_strings();
    for extra in [
        "4294967295", "4294967296", "+4294967295", "-0", "9223372036854775807", "9223372036854775808",
        "-9223372036854775808", "-9223372036854775809", "00012", "+-1", "-", "+", "99999999999999999999999",
    ] {
        samples.push(extra.to_string());
    }
    for text in samples {
        let chars: Vec<char> = text.chars().collect();
        assert_eq!(parse_u32_at(&chars, 0, chars.len()), text.parse::<u32>().ok(), "{:?}", text);
        assert_eq!(parse_i64_at(&chars, 0, chars.len()), text.parse::<i64>().ok(), "{:?}", text);
    }
}

fn line_farm(n: usize, ants: u32) -> Farm {
    let mut links = vec![Vec::new(); n];
    for i in 0..n - 1 {
        links[i].push(i + 1);
        links[i + 1].push(i);
    }
    Farm {
        ants,
        rooms: (0..n).map(|i| Room::new(&format!("r{}", i), i as i64, 0)).collect(),
        links,
        start: 0,
        end: n - 1,
    }
}

#[test]
fn bfs_waits_for_a_reserved_room() {
    let farm = line_farm(3, 1);
    let mut used = vec![HashSet::new(), HashSet::from([1usize])];
    assert_eq!(bfs(&farm, &used), Some(vec![0, 0, 1, 2]));
    used.push(HashSet::from([1usize]));
    assert_eq!(bfs(&farm, &used), Some(vec![0, 0, 0, 1, 2]));
    assert_eq!(bfs(&farm, &[]), Some(vec![0, 1, 2]));
}

#[test]
fn update_used_rooms_reserves_inner_turns() {
    let mut used: Vec<HashSet<usize>> = Vec::new();
    update_used_rooms(&mut used, &vec![0, 0, 2, 3, 1]);
    assert_eq!(used, vec![HashSet::new(), HashSet::from([0]), HashSet::from([2]), HashSet::from([3])]);
    update_used_rooms(&mut used, &vec![0, 2, 1]);
    assert_eq!(used, vec![HashSet::new(), HashSet::from([0, 2]), HashSet::from([2]), HashSet::from([3])]);
    update_used_rooms(&mut used, &vec![0, 1]);
    update_used_rooms(&mut used, &vec![0]);
    assert_eq!(used.len(), 4);
}

#[test]
fn reachability_of_the_end() {
    assert!(end_reachable(&line_farm(5, 1)));
    let mut farm = line_farm(5, 1);
    farm.links[2].clear();
    farm.links[1].retain(|&r| r != 2);
    farm.links[3].retain(|&r| r != 2);
    assert!(!end_reachable(&farm));
}

#[test]
fn repeated_bfs_subject_paths() {
    let farm = Farm::parse(&subject_1_text()).unwrap();
    assert_eq!(
        repeated_bfs(&farm),
        Some(vec![vec![0, 2, 3, 1], vec![0, 0, 2, 3, 1], vec![0, 0, 0, 2, 3, 1]])
    );
}

#[test]
fn move_lines_of_subject_1() {
    let farm = Farm::parse(&subject_1_text()).unwrap();
    let paths = repeated_bfs(&farm).unwrap();
    assert_eq!(
        move_lines(&farm, &paths),
        vec!["L1-2", "L1-3 L2-2", "L1-1 L2-3 L3-2", "L2-1 L3-3", "L3-1"]
    );
}

#[test]
fn move_lines_of_subject_3() {
    let farm = Farm::parse(&lines(&[
        "4", "3 2 2", "##start", "start 4 0", "##end", "end 4 6", "4 0 4", "1 4 2", "2 4 4", "5 8 2",
        "6 8 4", "3-start", "3-4", "start-1", "end-2", "end-6", "4-2", "1-2", "1-5", "5-6",
    ]))
    .unwrap();
    assert_eq!(
        farm.links,
        vec![vec![1, 3], vec![0, 4], vec![5, 7], vec![0, 5], vec![1, 5, 6], vec![2, 3, 4], vec![4, 7], vec![2, 6]]
    );
    let paths = repeated_bfs(&farm).unwrap();
    assert!(shared_rooms_free(&farm, &paths));
    assert_eq!(
        paths,
        vec![vec![1, 4, 5, 2], vec![1, 0, 3, 5, 2], vec![1, 1, 0, 3, 5, 2], vec![1, 1, 4, 6, 7, 2]]
    );
    assert_eq!(
        move_lines(&farm, &paths),
        vec![
            "L1-1 L2-3",
            "L1-2 L2-4 L3-3 L4-1",
            "L1-end L2-2 L3-4 L4-5",
            "L2-end L3-2 L4-6",
            "L3-end L4-end"
        ]
    );
}

#[test]
fn move_lines_number_ants_in_decimal() {
    let farm = line_farm(2, 12);
    let paths = repeated_bfs(&farm).unwrap();
    let out = move_lines(&farm, &paths);
    assert_eq!(out.len(), 1);
    assert!(out[0].ends_with("L10-r1 L11-r1 L12-r1"));
    assert!(out[0].starts_with("L1-r1 L2-r1"));
}

#[test]
fn move_lines_with_idle_turns() {
    let farm = line_farm(3, 1);
    let paths = vec![vec![0, 0, 1, 1, 2], vec![0, 1]];
    assert_eq!(move_lines(&farm, &paths), vec!["L2-r1", "L1-r1", "", "L1-r2"]);
}

#[test]
fn routed_ants_never_share_rooms_and_arrive_in_order() {
    let mut links = vec![Vec::new(); 7];
    for (a, b) in [(0, 1), (0, 2), (1, 3), (2, 3), (3, 4), (2, 5), (5, 4), (4, 6), (1, 6)] {
        links[a].push(b);
        links[b].push(a);
    }
    for l in links.iter_mut() {
        l.sort();
    }
    let farm = Farm {
        ants: 9,
        rooms: (0..7).map(|i| Room::new(&format!("n{}", i), 0, 0)).collect(),
        links,
        start: 0,
        end: 4,
    };
    let paths = repeated_bfs(&farm).unwrap();
    assert_eq!(paths.len(), 9);
    assert!(shared_rooms_free(&farm, &paths));
    for pair in paths.windows(2) {
        assert!(pair[0].len() <= pair[1].len());
    }
    for path in &paths {
        assert_eq!(path[0], 0);
        assert_eq!(*path.last().unwrap(), 4);
        for t in 1..path.len() {
            assert!(path[t] == path[t - 1] || farm.links[path[t - 1]].contains(&path[t]));
        }
    }
}

#[test]
fn duration_is_the_last_arrival() {
    for ants in 1..6 {
        let mut farm = Farm::parse(&subject_1_text()).unwrap();
        farm.ants = ants;
        let paths = repeated_bfs(&farm).unwrap();
        let longest = paths.iter().map(Vec::len).max().unwrap();
        assert_eq!(longest, paths.last().unwrap().len());
        assert_eq!(move_lines(&farm, &paths).len(), longest - 1);
    }
}

#[test]
fn parsed_tubes_are_listed_at_both_ends() {
    let farm = Farm::parse(&lines(&[
        "2", "##start", "s 0 0", "a 0 0", "b 0 0", "##end", "e 0 0", "s-a", "a-b", "b-e", "a-e", "s-s",
    ]))
    .unwrap();
    for (room, neighbours) in farm.links.iter().enumerate() {
        for &other in neighbours {
            assert!(farm.links[other].contains(&room));
        }
    }
    assert_ne!(farm.start, farm.end);
}

#[test]
fn reconstruct_path_walks_back_the_parents() {
    // Room 3 entered at turn 5 from 2, room 2 at turn 3 from 1, room 1 at turn 1 from 0.
    let parents = vec![Some((0, 0)), Some((0, 1)), Some((1, 3)), Some((2, 5)), None];
    assert_eq!(reconstruct_path(&parents, 0, 3), vec![0, 1, 1, 2, 2, 3]);
    assert_eq!(reconstruct_path(&parents, 0, 1), vec![0, 1]);
    // The start room is never looked up, whatever its entry says.
    let parents = vec![Some((4, 7)), Some((0, 2)), None];
    assert_eq!(reconstruct_path(&parents, 0, 1), vec![0, 0, 1]);
    assert_eq!(reconstruct_path(&parents, 0, 0), vec![0]);
    assert_eq!(reconstruct_path(&parents, 2, 2), vec![2]);
}

#[test]
fn first_routes_do_not_depend_on_later_ants() {
    let mut farm = Farm::parse(&lines(&[
        "4", "##start", "s 0 0", "##end", "e 0 0", "a 0 0", "b 0 0", "c 0 0", "s-a", "a-e", "s-b",
        "b-c", "c-e", "a-b",
    ]))
    .unwrap();
    let all = repeated_bfs(&farm).unwrap();
    for ants in 0..4 {
        farm.ants = ants;
        assert_eq!(repeated_bfs(&farm).unwrap(), all[..ants as usize].to_vec());
    }
}

#[test]
fn comments_and_surrounding_whitespace_change_nothing() {
    let plain = Farm::parse(&subject_1_text()).unwrap();
    let noisy = Farm::parse(&lines(&[
        "# a farm", "  3", "##start", "#", "0 1 0   ", "##end", "\t1 5 0", "# rooms", "2 9 0",
        " 3 13 0 ", "0-2", "   # tubes", "2-3", "3-1\t", "#last",
    ]))
    .unwrap();
    assert_eq!(noisy.ants, plain.ants);
    assert_eq!(noisy.links, plain.links);
    assert_eq!(noisy.start, plain.start);
    assert_eq!(noisy.end, plain.end);
    assert_eq!(noisy.rooms.len(), plain.rooms.len());
    assert_eq!(move_lines(&noisy, &repeated_bfs(&noisy).unwrap()), move_lines(&plain, &repeated_bfs(&plain).unwrap()));
}

#[test]
fn tube_order_and_direction_change_nothing() {
    let plain = Farm::parse(&subject_1_text()).unwrap();
    let shuffled = Farm::parse(&lines(&[
        "3", "##start", "0 1 0", "##end", "1 5 0", "2 9 0", "3 13 0", "1-3", "2-0", "3-2",
    ]))
    .unwrap();
    assert_eq!(shuffled.links, plain.links);
    assert_eq!(repeated_bfs(&shuffled), repeated_bfs(&plain));
}

#[test]
fn first_ant_is_as_quick_as_any_and_routing_is_greedy() {
    // Start 0, end 1: the greedy routing of two ants takes four turns although three would do
    // (0-2-4-1 and 0-5-3-1); the first ant still arrives as early as any ant can.
    let mut links = vec![Vec::new(); 6];
    for (a, b) in [(0, 2), (0, 5), (1, 3), (1, 4), (2, 3), (2, 4), (3, 5)] {
        links[a].push(b);
        links[b].push(a);
    }
    for l in links.iter_mut() {
        l.sort();
    }
    let farm = Farm {
        ants: 2,
        rooms: (0..6).map(|i| Room::new(&format!("m{}", i), 0, 0)).collect(),
        links,
        start: 0,
        end: 1,
    };
    let paths = repeated_bfs(&farm).unwrap();
    assert_eq!(paths, vec![vec![0, 2, 3, 1], vec![0, 5, 5, 3, 1]]);
    assert!(shared_rooms_free(&farm, &paths));
    let quicker = vec![vec![0, 2, 4, 1], vec![0, 5, 3, 1]];
    assert!(shared_rooms_free(&farm, &quicker));
    assert!(quicker.iter().all(|p| p.len() >= paths[0].len()));
}

fn turns(paths: &[Path]) -> usize {
    paths.iter().map(Vec::len).max().unwrap() - 1
}

fn moves_along_tubes(farm: &Farm, paths: &[Path]) -> bool {
    paths.iter().all(|p| {
        p[0] == farm.start
            && *p.last().unwrap() == farm.end
            && (1..p.len()).all(|t| p[t] == p[t - 1] || farm.links[p[t - 1]].contains(&p[t]))
    })
}

fn greedy_counterexample() -> Farm {
    let mut links = vec![Vec::new(); 6];
    for (a, b) in [(0, 2), (0, 5), (1, 3), (1, 4), (2, 3), (2, 4), (3, 5)] {
        links[a].push(b);
        links[b].push(a);
    }
    for l in links.iter_mut() {
        l.sort();
    }
    Farm {
        ants: 2,
        rooms: (0..6).map(|i| Room::new(&format!("m{}", i), 0, 0)).collect(),
        links,
        start: 0,
        end: 1,
    }
}

#[test]
fn quickest_routing_beats_the_greedy_one() {
    let farm = greedy_counterexample();
    let greedy = repeated_bfs(&farm).unwrap();
    assert_eq!(turns(&greedy), 4);
    let best = quickest_routing(&farm).unwrap();
    assert_eq!(best.len(), 2);
    assert_eq!(turns(&best), 3);
    assert!(shared_rooms_free(&farm, &best));
    assert!(moves_along_tubes(&farm, &best));
    assert_eq!(route(&farm), Some(best.clone()));
    assert_eq!(move_lines(&farm, &best).len(), 3);
}

#[test]
fn quickest_routing_of_the_subject_maps() {
    let subject_3 = lines(&[
        "4", "3 2 2", "##start", "start 4 0", "##end", "end 4 6", "4 0 4", "1 4 2", "2 4 4", "5 8 2",
        "6 8 4", "3-start", "3-4", "start-1", "end-2", "end-6", "4-2", "1-2", "1-5", "5-6",
    ]);
    for (text, expected) in [(subject_1_text(), 5), (subject_3, 5)] {
        let farm = Farm::parse(&text).unwrap();
        let best = quickest_routing(&farm).unwrap();
        assert_eq!(best.len(), farm.ants as usize);
        assert_eq!(turns(&best), expected);
        assert!(shared_rooms_free(&farm, &best));
        assert!(moves_along_tubes(&farm, &best));
    }
}

#[test]
fn quickest_routing_needs_a_small_search() {
    // 2 rooms and 21 ants: 2^21 lists of rooms is more than the search tabulates.
    let mut farm = line_farm(2, 21);
    assert_eq!(quickest_routing(&farm), None);
    assert_eq!(route(&farm), repeated_bfs(&farm));
    farm.ants = 10;
    let best = quickest_routing(&farm).unwrap();
    assert_eq!(turns(&best), 1);
}

#[test]
fn parsed_names_and_tubes_have_their_shape() {
    let farm = Farm::parse(&lines(&[
        "2", "##start", "s 0 0", "a_1 0 0", "B2 0 0", "##end", "e 0 0", "s-a_1", "a_1-B2", "B2-e", "a_1-e",
        "s-s", "a_1-e",
    ]))
    .unwrap();
    let n = farm.rooms.len();
    for i in 0..n {
        let name = &farm.rooms[i].name;
        assert!(!name.is_empty() && !name.starts_with('L'));
        assert!(name.chars().all(|c| c.is_ascii_alphanumeric() || c == '_'));
        for j in 0..n {
            assert!(i == j || farm.rooms[i].name != farm.rooms[j].name);
            let ij = farm.links[i].iter().filter(|&&x| x == j).count();
            let ji = farm.links[j].iter().filter(|&&x| x == i).count();
            assert_eq!(ij, ji);
        }
    }
    assert_eq!(farm.links[0], vec![0, 0, 1]);
    assert_eq!(farm.links[1], vec![0, 2, 3, 3]);
}

#[test]
fn tube_order_with_comments_changes_nothing() {
    let plain = Farm::parse(&subject_1_text()).unwrap();
    let shuffled = Farm::parse(&lines(&[
        "3", "##start", "0 1 0", "##end", "1 5 0", "2 9 0", "3 13 0", "# tubes", "3-2", "#", "2-0",
        "  # last", "1-3",
    ]))
    .unwrap();
    assert_eq!(shuffled, plain);
}
