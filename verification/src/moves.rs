//! The output of a routing: for every turn, the ants that move and the rooms they enter,
//! written `L<ant>-<room>` and separated by single spaces.
use vstd::prelude::*;
use crate::map::Farm;
use crate::schedule::{lemma_arrivals_in_order, routed, routed_at};
use crate::solver::Path;
use crate::text::{all_digits, digits_value, is_digit, parse_u32};

verus! {

/// The decimal digit `d`.
pub open spec fn digit_char(d: nat) -> char {
    (d + '0' as nat) as char
}

/// The decimal writing of `n`, without leading zeros.
pub open spec fn decimal(n: nat) -> Seq<char>
    decreases n,
{
    if n < 10 {
        seq![digit_char(n)]
    } else {
        decimal(n / 10).push(digit_char(n % 10))
    }
}

/// The decimal digit `d` as a string.
fn digit_str(d: usize) -> (s: &'static str)
    requires
        d < 10,
    ensures
        s@ == seq![digit_char(d as nat)],
{
    match d {
        0 => {
            proof {
                reveal_strlit("0");
            }
            "0"
        },
        1 => {
            proof {
                reveal_strlit("1");
            }
            "1"
        },
        2 => {
            proof {
                reveal_strlit("2");
            }
            "2"
        },
        3 => {
            proof {
                reveal_strlit("3");
            }
            "3"
        },
        4 => {
            proof {
                reveal_strlit("4");
            }
            "4"
        },
        5 => {
            proof {
                reveal_strlit("5");
            }
            "5"
        },
        6 => {
            proof {
                reveal_strlit("6");
            }
            "6"
        },
        7 => {
            proof {
                reveal_strlit("7");
            }
            "7"
        },
        8 => {
            proof {
                reveal_strlit("8");
            }
            "8"
        },
        _ => {
            proof {
                reveal_strlit("9");
            }
            "9"
        },
    }
}

/// The decimal writing of `n`.
fn decimal_string(n: usize) -> (s: String)
    ensures
        s@ == decimal(n as nat),
    decreases n,
{
    if n < 10 {
        String::from_str(digit_str(n))
    } else {
        let mut s = decimal_string(n / 10);
        s.append(digit_str(n % 10));
        s
    }
}

/// The length of the longest path.
pub open spec fn max_len(paths: Seq<Seq<usize>>) -> nat
    decreases paths.len(),
{
    if paths.len() == 0 {
        0
    } else {
        let m = max_len(paths.drop_last());
        if paths.last().len() > m {
            paths.last().len()
        } else {
            m
        }
    }
}

/// The room an ant was last shown in after turn `t` (the start room before it first moves).
pub open spec fn last_shown(start: usize, path: Seq<usize>, t: int) -> usize {
    if t <= 0 || path.len() <= 1 {
        start
    } else if t < path.len() {
        path[t]
    } else {
        path[path.len() - 1]
    }
}

/// The ant with schedule `path` moves at turn `t`: it has a room at that turn and it is
/// not the room it was last shown in.
pub open spec fn moves_at(start: usize, path: Seq<usize>, t: int) -> bool {
    t < path.len() && path[t] != last_shown(start, path, t - 1)
}

/// The moves of turn `t` among the first `k` ants, as (ant, room) pairs in ant order.
pub open spec fn turn_moves(start: usize, paths: Seq<Seq<usize>>, t: int, k: int) -> Seq<(usize, usize)>
    decreases k,
{
    if k <= 0 {
        seq![]
    } else {
        let init = turn_moves(start, paths, t, k - 1);
        if moves_at(start, paths[k - 1], t) {
            init.push(((k - 1) as usize, paths[k - 1][t]))
        } else {
            init
        }
    }
}

/// `L<ant + 1>-<name of room>`.
pub open spec fn move_text(names: Seq<Seq<char>>, mv: (usize, usize)) -> Seq<char> {
    seq!['L'] + decimal((mv.0 + 1) as nat) + seq!['-'] + names[mv.1 as int]
}

/// The moves written one after the other, separated by single spaces.
pub open spec fn render(names: Seq<Seq<char>>, moves: Seq<(usize, usize)>) -> Seq<char>
    decreases moves.len(),
{
    if moves.len() == 0 {
        seq![]
    } else if moves.len() == 1 {
        move_text(names, moves[0])
    } else {
        render(names, moves.drop_last()) + seq![' '] + move_text(names, moves.last())
    }
}

/// The names of the rooms of `map`.
pub open spec fn room_names(map: Farm) -> Seq<Seq<char>> {
    map.rooms@.map_values(|r: crate::map::Room| r.name@)
}

/// The schedules as sequences.
pub open spec fn paths_seq(paths: Seq<Path>) -> Seq<Seq<usize>> {
    paths.map_values(|p: Path| p@)
}

/// The output lines of a routing: one line for every turn from 1 to the longest path's last
/// turn, listing the ants that move at that turn.
pub fn move_lines(map: &Farm, paths: &Vec<Path>) -> (lines: Vec<String>)
    requires
        paths.len() >= 1,
        paths.len() < usize::MAX,
        forall|a: int, t: int|
            0 <= a < paths.len() && 0 <= t < paths@[a].len() ==> #[trigger] paths@[a]@[t]
                < map.rooms.len(),
    ensures
        lines.len() == (if max_len(paths_seq(paths@)) >= 1 {
            max_len(paths_seq(paths@)) - 1
        } else {
            0
        }),
        forall|t: int|
            0 <= t < lines.len() ==> #[trigger] lines@[t]@ == render(
                room_names(*map),
                turn_moves(map.start, paths_seq(paths@), t + 1, paths.len() as int),
            ),
{
    let ghost ps = paths_seq(paths@);
    let ghost names = room_names(*map);
    let n_ants = paths.len();
    let mut max_time: usize = 0;
    let mut a: usize = 0;
    while a < n_ants
        invariant
            n_ants == paths.len(),
            ps == paths_seq(paths@),
            a <= n_ants,
            max_time == max_len(ps.take(a as int)),
        decreases n_ants - a,
    {
        assert(ps.take(a + 1).drop_last() =~= ps.take(a as int));
        if paths[a].len() > max_time {
            max_time = paths[a].len();
        }
        a += 1;
    }
    assert(ps.take(n_ants as int) =~= ps);
    let mut previous: Vec<usize> = Vec::new();
    while previous.len() < n_ants
        invariant
            previous.len() <= n_ants,
            forall|i: int| 0 <= i < previous.len() ==> previous@[i] == map.start,
        decreases n_ants - previous.len(),
    {
        previous.push(map.start);
    }
    let mut lines: Vec<String> = Vec::new();
    let mut time: usize = 1;
    while time < max_time
        invariant
            n_ants == paths.len(),
            n_ants < usize::MAX,
            ps == paths_seq(paths@),
            names == room_names(*map),
            forall|a: int, t: int|
                0 <= a < paths.len() && 0 <= t < paths@[a].len() ==> #[trigger] paths@[a]@[t]
                    < map.rooms.len(),
            max_time == max_len(ps),
            1 <= time,
            time <= max_time || (time == 1 && max_time == 0),
            lines.len() + 1 == time,
            previous.len() == n_ants,
            forall|i: int|
                0 <= i < n_ants ==> #[trigger] previous@[i] == last_shown(map.start, ps[i], time - 1),
            forall|t: int|
                0 <= t < lines.len() ==> #[trigger] lines@[t]@ == render(
                    names,
                    turn_moves(map.start, ps, t + 1, n_ants as int),
                ),
        decreases max_time - time,
    {
        let mut line = String::new();
        let mut first_in_line = true;
        let mut ant: usize = 0;
        while ant < n_ants
            invariant
                n_ants == paths.len(),
                n_ants < usize::MAX,
                ps == paths_seq(paths@),
                names == room_names(*map),
                forall|a: int, t: int|
                    0 <= a < paths.len() && 0 <= t < paths@[a].len() ==> #[trigger] paths@[a]@[t]
                        < map.rooms.len(),
                1 <= time,
                ant <= n_ants,
                previous.len() == n_ants,
                forall|i: int|
                    0 <= i < ant ==> #[trigger] previous@[i] == last_shown(map.start, ps[i], time as int),
                forall|i: int|
                    ant <= i < n_ants ==> #[trigger] previous@[i] == last_shown(
                        map.start,
                        ps[i],
                        time - 1,
                    ),
                line@ == render(names, turn_moves(map.start, ps, time as int, ant as int)),
                first_in_line <==> turn_moves(map.start, ps, time as int, ant as int).len() == 0,
            decreases n_ants - ant,
        {
            let path = &paths[ant];
            assert(path@ == ps[ant as int]);
            let ghost before = previous@;
            if time < path.len() {
                let room = path[time];
                if room != previous[ant] {
                    previous.set(ant, room);
                    let ghost old_line = line@;
                    let ghost prior = turn_moves(map.start, ps, time as int, ant as int);
                    if !first_in_line {
                        line.append(" ");
                    }
                    line.append("L");
                    let number = decimal_string(ant + 1);
                    line.append(number.as_str());
                    line.append("-");
                    line.append(map.rooms[room].name.as_str());
                    first_in_line = false;
                    proof {
                        reveal_strlit(" ");
                        reveal_strlit("L");
                        reveal_strlit("-");
                        assert(names[room as int] == map.rooms@[room as int].name@);
                        let mv = (ant, room);
                        let next = turn_moves(map.start, ps, time as int, ant + 1);
                        assert(next == prior.push(mv));
                        assert(next.drop_last() =~= prior);
                        if prior.len() > 0 {
                            assert(line@ =~= old_line + seq![' '] + move_text(names, mv));
                        } else {
                            assert(line@ =~= move_text(names, mv));
                        }
                    }
                }
            }
            proof {
                assert forall|i: int| 0 <= i < ant + 1 implies #[trigger] previous@[i] == last_shown(
                    map.start,
                    ps[i],
                    time as int,
                ) by {
                    if i < ant {
                        assert(previous@[i] == before[i]);
                    }
                }
                assert forall|i: int| ant + 1 <= i < n_ants implies #[trigger] previous@[i]
                    == last_shown(map.start, ps[i], time - 1) by {
                    assert(previous@[i] == before[i]);
                }
            }
            ant += 1;
        }
        lines.push(line);
        proof {
            assert forall|t: int| 0 <= t < lines.len() implies #[trigger] lines@[t]@ == render(
                names,
                turn_moves(map.start, ps, t + 1, n_ants as int),
            ) by {}
        }
        time += 1;
    }
    lines
}

/// Law: when the ants are routed one after another, the longest schedule is the last
/// ant's, so the moves take exactly as many turns as the last ant needs to arrive.
pub proof fn lemma_duration_is_last_arrival(
    g: Seq<Seq<usize>>,
    start: usize,
    end: usize,
    paths: Seq<Seq<usize>>,
)
    requires
        routed(g, start, end, paths),
        paths.len() >= 1,
    ensures
        max_len(paths) == paths.last().len(),
    decreases paths.len(),
{
    if paths.len() >= 2 {
        let init = paths.drop_last();
        assert forall|k: int| 0 <= k < init.len() implies #[trigger] routed_at(g, start, end, init, k) by {
            assert(init.take(k) =~= paths.take(k));
            assert(routed_at(g, start, end, paths, k));
        }
        lemma_duration_is_last_arrival(g, start, end, init);
        lemma_arrivals_in_order(g, start, end, paths, paths.len() - 2);
        assert(init.last() == paths[paths.len() - 2]);
    } else {
        assert(max_len(paths.drop_last()) == 0);
    }
}

proof fn lemma_digit_char(d: nat)
    requires
        d < 10,
    ensures
        digit_char(d) as int - '0' as int == d,
        is_digit(digit_char(d)),
        digit_char(d) != '+',
        d > 0 ==> digit_char(d) != '0',
{
}

/// Law: the number written for an ant is the ordinary decimal writing of its index: one or
/// more decimal digits, without a leading zero, whose base-10 value is the index; read back
/// as an ant count it gives the index again.
pub proof fn lemma_decimal_reads_back(n: nat)
    ensures
        decimal(n).len() >= 1,
        all_digits(decimal(n)),
        digits_value(decimal(n)) == n,
        decimal(n).len() > 1 ==> decimal(n)[0] != '0',
        n <= u32::MAX ==> parse_u32(decimal(n)) == Some(n as u32),
    decreases n,
{
    let s = decimal(n);
    if n < 10 {
        lemma_digit_char(n);
        assert(s == seq![digit_char(n)]);
        assert(s.drop_last() =~= Seq::<char>::empty());
        assert(s.last() == digit_char(n));
        assert(digits_value(s) == digits_value(s.drop_last()) * 10 + (s.last() as int - '0' as int));
        assert(is_digit(s[0]));
    } else {
        lemma_decimal_reads_back(n / 10);
        lemma_digit_char(n % 10);
        let h = decimal(n / 10);
        assert(s == h.push(digit_char(n % 10)));
        assert(s.drop_last() =~= h);
        assert(s.last() == digit_char(n % 10));
        assert(digits_value(s) == digits_value(h) * 10 + (digit_char(n % 10) as int - '0' as int));
        assert(n == (n / 10) * 10 + n % 10);
        assert forall|i: int| 0 <= i < s.len() implies #[trigger] is_digit(s[i]) by {
            if i < h.len() {
                assert(s[i] == h[i]);
                assert(is_digit(h[i]));
            }
        }
        if h.len() == 1 {
            assert(h == seq![digit_char(n / 10)]) by {
                if n / 10 >= 10 {
                    assert(decimal(n / 10).len() == decimal(n / 10 / 10).len() + 1);
                    assert(decimal(n / 10 / 10).len() >= 1) by {
                        lemma_decimal_reads_back(n / 10 / 10);
                    }
                }
            }
            lemma_digit_char(n / 10);
        }
        assert(s[0] == h[0]);
    }
    assert(is_digit(s[0]));
    assert(s[0] != '+');
}

} // verus!