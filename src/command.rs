//! The line protocol: `GEOADD`, `GEOSEARCH`, `GEOGET` and `HEARTBEAT`.
use crate::decimal::{
    all_digits, decimal_of, decimal_text, fixed_digits, is_digit, lemma_decimal_round_trip,
    lemma_fixed_digits, lemma_nat_text, nat_text, parse_decimal, pow10, push_decimal, Decimal,
};
use crate::text::{
    chars_of, is_space, is_token, join_tokens, joined, lemma_words_are_tokens, lemma_words_joined, split_tokens,
    string_of, views, words,
};
use vstd::prelude::*;

verus! {

/// A request of the line protocol. Coordinates are `(lat, lon)` pairs as the
/// client wrote them.
pub enum Command {
    GeoAdd { key: String, coords: Vec<(Decimal, Decimal)> },
    GeoSearch { lat: Decimal, lon: Decimal, radius: Decimal },
    GeoGet { key: String },
    Heartbeat,
}

pub enum CommandView {
    GeoAdd { key: Seq<char>, coords: Seq<(Decimal, Decimal)> },
    GeoSearch { lat: Decimal, lon: Decimal, radius: Decimal },
    GeoGet { key: Seq<char> },
    Heartbeat,
}

impl View for Command {
    type V = CommandView;

    open spec fn view(&self) -> CommandView {
        match self {
            Command::GeoAdd { key, coords } => CommandView::GeoAdd { key: key@, coords: coords@ },
            Command::GeoSearch { lat, lon, radius } => CommandView::GeoSearch {
                lat: *lat,
                lon: *lon,
                radius: *radius,
            },
            Command::GeoGet { key } => CommandView::GeoGet { key: key@ },
            Command::Heartbeat => CommandView::Heartbeat,
        }
    }
}

pub open spec fn geoadd_word() -> Seq<char> {
    seq!['G', 'E', 'O', 'A', 'D', 'D']
}

pub open spec fn geosearch_word() -> Seq<char> {
    seq!['G', 'E', 'O', 'S', 'E', 'A', 'R', 'C', 'H']
}

pub open spec fn geoget_word() -> Seq<char> {
    seq!['G', 'E', 'O', 'G', 'E', 'T']
}

pub open spec fn heartbeat_word() -> Seq<char> {
    seq!['H', 'E', 'A', 'R', 'T', 'B', 'E', 'A', 'T']
}

/// Pairs of decimal tokens, read as `(lat, lon)` coordinates.
pub open spec fn coords_of(ts: Seq<Seq<char>>) -> Option<Seq<(Decimal, Decimal)>>
    decreases ts.len(),
{
    if ts.len() == 0 {
        Some(Seq::empty())
    } else if ts.len() == 1 {
        None
    } else {
        match (decimal_of(ts[0]), decimal_of(ts[1]), coords_of(ts.skip(2))) {
            (Some(a), Some(b), Some(rest)) => Some(seq![(a, b)] + rest),
            _ => None,
        }
    }
}

/// The command that a line denotes, if any. A `GEOADD` takes one coordinate
/// (a point) or at least three (a polygon).
pub open spec fn command_of(s: Seq<char>) -> Option<CommandView> {
    let ts = words(s);
    if ts.len() >= 2 && ts[0] == geoadd_word() {
        match coords_of(ts.skip(2)) {
            Some(cs) => if cs.len() == 1 || cs.len() >= 3 {
                Some(CommandView::GeoAdd { key: ts[1], coords: cs })
            } else {
                None
            },
            None => None,
        }
    } else if ts.len() == 4 && ts[0] == geosearch_word() {
        match (decimal_of(ts[1]), decimal_of(ts[2]), decimal_of(ts[3])) {
            (Some(lat), Some(lon), Some(radius)) => Some(
                CommandView::GeoSearch { lat, lon, radius },
            ),
            _ => None,
        }
    } else if ts.len() == 2 && ts[0] == geoget_word() {
        Some(CommandView::GeoGet { key: ts[1] })
    } else if ts.len() == 1 && ts[0] == heartbeat_word() {
        Some(CommandView::Heartbeat)
    } else {
        None
    }
}

pub open spec fn coord_tokens(cs: Seq<(Decimal, Decimal)>) -> Seq<Seq<char>>
    decreases cs.len(),
{
    if cs.len() == 0 {
        Seq::empty()
    } else {
        seq![decimal_text(cs[0].0), decimal_text(cs[0].1)] + coord_tokens(cs.drop_first())
    }
}

/// The tokens with which a command is written.
pub open spec fn tokens_of(c: CommandView) -> Seq<Seq<char>> {
    match c {
        CommandView::GeoAdd { key, coords } => seq![geoadd_word(), key] + coord_tokens(coords),
        CommandView::GeoSearch { lat, lon, radius } => seq![
            geosearch_word(),
            decimal_text(lat),
            decimal_text(lon),
            decimal_text(radius),
        ],
        CommandView::GeoGet { key } => seq![geoget_word(), key],
        CommandView::Heartbeat => seq![heartbeat_word()],
    }
}

/// The line with which a command is written.
pub open spec fn command_text(c: CommandView) -> Seq<char> {
    joined(tokens_of(c))
}

pub open spec fn coords_wf(cs: Seq<(Decimal, Decimal)>) -> bool {
    forall|i: int| 0 <= i < cs.len() ==> (#[trigger] cs[i]).0.wf() && cs[i].1.wf()
}

/// A command that the protocol can write: keys are tokens, numbers are in
/// range, and a `GEOADD` has one coordinate or at least three.
pub open spec fn command_wf(c: CommandView) -> bool {
    match c {
        CommandView::GeoAdd { key, coords } => is_token(key) && coords_wf(coords) && (
        coords.len() == 1 || coords.len() >= 3),
        CommandView::GeoSearch { lat, lon, radius } => lat.wf() && lon.wf() && radius.wf(),
        CommandView::GeoGet { key } => is_token(key),
        CommandView::Heartbeat => true,
    }
}

pub proof fn lemma_decimal_token(d: Decimal)
    requires
        d.wf(),
    ensures
        is_token(decimal_text(d)),
{
    let mag = crate::decimal::abs(d.mant as int);
    let p = pow10(d.scale as nat);
    crate::decimal::lemma_pow10_pos(d.scale as nat);
    let q = (mag / p) as nat;
    lemma_nat_text(q);
    crate::decimal::lemma_frac_text(d);
    let t = decimal_text(d);
    let sg = if d.mant < 0 {
        seq!['-']
    } else {
        Seq::<char>::empty()
    };
    let it = nat_text(q);
    let f = crate::decimal::frac_text(d);
    assert(t =~= sg + it + seq!['.'] + f);
    assert forall|i: int| 0 <= i < t.len() implies !is_space(#[trigger] t[i]) by {
        if i < sg.len() {
            assert(t[i] == '-');
        } else if i < sg.len() + it.len() {
            assert(t[i] == it[i - sg.len()]);
            assert(is_digit(it[i - sg.len()]));
        } else if i == sg.len() + it.len() {
            assert(t[i] == '.');
        } else {
            assert(t[i] == f[i - sg.len() - it.len() - 1]);
            assert(is_digit(f[i - sg.len() - it.len() - 1]));
        }
    }
}

proof fn lemma_coords_round_trip(cs: Seq<(Decimal, Decimal)>)
    requires
        coords_wf(cs),
    ensures
        coords_of(coord_tokens(cs)) == Some(cs),
        forall|i: int|
            0 <= i < coord_tokens(cs).len() ==> is_token(#[trigger] coord_tokens(cs)[i]),
        coord_tokens(cs).len() == 2 * cs.len(),
    decreases cs.len(),
{
    if cs.len() == 0 {
        assert(coord_tokens(cs) =~= Seq::<Seq<char>>::empty());
    } else {
        let ts = coord_tokens(cs);
        assert(cs[0].0.wf() && cs[0].1.wf());
        assert(coords_wf(cs.drop_first())) by {
            assert forall|i: int| 0 <= i < cs.drop_first().len() implies (#[trigger] cs.drop_first()[i]).0.wf()
                && cs.drop_first()[i].1.wf() by {
                assert(cs.drop_first()[i] == cs[i + 1]);
            }
        }
        lemma_coords_round_trip(cs.drop_first());
        lemma_decimal_round_trip(cs[0].0);
        lemma_decimal_round_trip(cs[0].1);
        lemma_decimal_token(cs[0].0);
        lemma_decimal_token(cs[0].1);
        assert(ts.skip(2) =~= coord_tokens(cs.drop_first()));
        assert(seq![(cs[0].0, cs[0].1)] + cs.drop_first() =~= cs);
        assert forall|i: int| 0 <= i < ts.len() implies is_token(#[trigger] ts[i]) by {
            if i >= 2 {
                assert(ts[i] == coord_tokens(cs.drop_first())[i - 2]);
            }
        }
    }
}

proof fn lemma_parse_format_add(key: Seq<char>, coords: Seq<(Decimal, Decimal)>)
    requires
        command_wf(CommandView::GeoAdd { key, coords }),
    ensures
        command_of(command_text(CommandView::GeoAdd { key, coords })) == Some(
            CommandView::GeoAdd { key, coords },
        ),
{
    let c = CommandView::GeoAdd { key, coords };
    let ts = tokens_of(c);
    lemma_coords_round_trip(coords);
    assert(ts.skip(2) =~= coord_tokens(coords));
    assert forall|i: int| 0 <= i < ts.len() implies is_token(#[trigger] ts[i]) by {
        if i >= 2 {
            assert(ts[i] == coord_tokens(coords)[i - 2]);
        }
    }
    lemma_words_joined(ts);
}

#[verifier::rlimit(100)]
proof fn lemma_parse_format_search(lat: Decimal, lon: Decimal, radius: Decimal)
    requires
        command_wf(CommandView::GeoSearch { lat, lon, radius }),
    ensures
        command_of(command_text(CommandView::GeoSearch { lat, lon, radius })) == Some(
            CommandView::GeoSearch { lat, lon, radius },
        ),
{
    let c = CommandView::GeoSearch { lat, lon, radius };
    let ts = tokens_of(c);
    lemma_decimal_round_trip(lat);
    lemma_decimal_round_trip(lon);
    lemma_decimal_round_trip(radius);
    lemma_decimal_token(lat);
    lemma_decimal_token(lon);
    lemma_decimal_token(radius);
    assert(geosearch_word() != geoadd_word()) by {
        assert(geosearch_word().len() != geoadd_word().len());
    }
    lemma_words_joined(ts);
}

/// The tokens of a command that the protocol can write are tokens.
pub proof fn lemma_tokens_of_wf(c: CommandView)
    requires
        command_wf(c),
    ensures
        tokens_of(c).len() >= 1,
        forall|i: int| 0 <= i < tokens_of(c).len() ==> is_token(#[trigger] tokens_of(c)[i]),
{
    let ts = tokens_of(c);
    match c {
        CommandView::GeoAdd { key, coords } => {
            lemma_coords_round_trip(coords);
            assert forall|i: int| 0 <= i < ts.len() implies is_token(#[trigger] ts[i]) by {
                if i >= 2 {
                    assert(ts[i] == coord_tokens(coords)[i - 2]);
                }
            }
        },
        CommandView::GeoSearch { lat, lon, radius } => {
            lemma_decimal_token(lat);
            lemma_decimal_token(lon);
            lemma_decimal_token(radius);
        },
        _ => {},
    }
}

/// Reading back the line with which a command is written gives the same command.
pub proof fn lemma_parse_format(c: CommandView)
    requires
        command_wf(c),
    ensures
        command_of(command_text(c)) == Some(c),
{
    let ts = tokens_of(c);
    match c {
        CommandView::GeoAdd { key, coords } => {
            lemma_parse_format_add(key, coords);
        },
        CommandView::GeoSearch { lat, lon, radius } => {
            lemma_parse_format_search(lat, lon, radius);
        },
        CommandView::GeoGet { key } => {
            assert(geoget_word() != geoadd_word()) by {
                assert(geoget_word()[3] != geoadd_word()[3]);
            }
            lemma_words_joined(ts);
        },
        CommandView::Heartbeat => {
            lemma_words_joined(ts);
        },
    }
}

/// Whether two character vectors hold the same characters.
pub fn same_chars(a: &Vec<char>, b: &Vec<char>) -> (r: bool)
    ensures
        r == (a@ == b@),
{
    if a.len() != b.len() {
        return false;
    }
    let mut i: usize = 0;
    while i < a.len()
        invariant
            i <= a.len() == b.len(),
            a@.take(i as int) == b@.take(i as int),
        decreases a.len() - i,
    {
        if a[i] != b[i] {
            return false;
        }
        i += 1;
        proof {
            assert(a@.take(i as int) =~= a@.take(i as int - 1).push(a@[i - 1]));
            assert(b@.take(i as int) =~= b@.take(i as int - 1).push(b@[i - 1]));
        }
    }
    proof {
        assert(a@ =~= a@.take(i as int));
        assert(b@ =~= b@.take(i as int));
    }
    true
}

/// Reads the coordinate pairs in `ts[from..]`.
fn parse_coords(ts: &Vec<Vec<char>>, from: usize) -> (r: Option<Vec<(Decimal, Decimal)>>)
    requires
        from <= ts.len(),
    ensures
        r matches Some(v) ==> coords_of(views(ts@).skip(from as int)) == Some(v@) && coords_wf(v@),
        r is None ==> coords_of(views(ts@).skip(from as int)) is None,
{
    let ghost all = views(ts@).skip(from as int);
    let mut acc: Vec<(Decimal, Decimal)> = Vec::new();
    let mut j: usize = from;
    proof {
        assert(acc@ + Seq::<(Decimal, Decimal)>::empty() =~= acc@);
    }
    while j < ts.len()
        invariant
            from <= j <= ts.len(),
            all == views(ts@).skip(from as int),
            coords_wf(acc@),
            coords_of(all) == match coords_of(views(ts@).skip(j as int)) {
                Some(rest) => Some(acc@ + rest),
                None => None,
            },
        decreases ts.len() - j,
    {
        let ghost cur = views(ts@).skip(j as int);
        if j + 1 == ts.len() {
            return None;
        }
        proof {
            assert(cur[0] == ts@[j as int]@);
            assert(cur[1] == ts@[j + 1]@);
            assert(cur.skip(2) =~= views(ts@).skip(j + 2));
        }
        let a = parse_decimal(&ts[j]);
        let b = parse_decimal(&ts[j + 1]);
        match (a, b) {
            (Some(a), Some(b)) => {
                proof {
                    match coords_of(views(ts@).skip(j + 2)) {
                        Some(rest) => {
                            assert(acc@.push((a, b)) + rest =~= acc@ + (seq![(a, b)] + rest));
                        },
                        None => {},
                    }
                }
                acc.push((a, b));
                proof {
                    assert forall|i: int| 0 <= i < acc@.len() implies (#[trigger] acc@[i]).0.wf() && acc@[i].1.wf() by {
                        if i < acc@.len() - 1 {
                            assert(acc@[i] == acc@.drop_last()[i]);
                        }
                    }
                }
            },
            _ => {
                return None;
            },
        }
        j += 2;
    }
    proof {
        assert(views(ts@).skip(j as int) =~= Seq::<Seq<char>>::empty());
        assert(acc@ + Seq::<(Decimal, Decimal)>::empty() =~= acc@);
    }
    Some(acc)
}

/// Reads one line of the protocol. Tokens are separated by whitespace; verbs
/// are upper case; numbers are decimals as `Decimal` reads them.
pub fn parse_command(input: &str) -> (r: Option<Command>)
    ensures
        r matches Some(c) ==> command_of(input@) == Some(c@) && command_wf(c@),
        r is None ==> command_of(input@) is None,
{
    let cs = chars_of(input);
    let ts = split_tokens(&cs);
    let ghost w = views(ts@);
    let n = ts.len();
    proof {
        assert(w.len() == n);
        if n >= 1 {
            assert(w[0] == ts@[0]@);
        }
        if n >= 2 {
            assert(w[1] == ts@[1]@);
        }
        if n >= 4 {
            assert(w[2] == ts@[2]@);
            assert(w[3] == ts@[3]@);
        }
    }
    if n == 0 {
        return None;
    }
    if n >= 2 && same_chars(&ts[0], &vec!['G', 'E', 'O', 'A', 'D', 'D']) {
        match parse_coords(&ts, 2) {
            Some(coords) => {
                if coords.len() == 1 || coords.len() >= 3 {
                    proof {
                        lemma_words_are_tokens(cs@);
                        assert(w[1] == words(cs@)[1]);
                    }
                    let key = string_of(&ts[1]);
                    return Some(Command::GeoAdd { key, coords });
                } else {
                    return None;
                }
            },
            None => {
                return None;
            },
        }
    }
    if n == 4 && same_chars(&ts[0], &vec!['G', 'E', 'O', 'S', 'E', 'A', 'R', 'C', 'H']) {
        let lat = parse_decimal(&ts[1]);
        let lon = parse_decimal(&ts[2]);
        let radius = parse_decimal(&ts[3]);
        match (lat, lon, radius) {
            (Some(lat), Some(lon), Some(radius)) => {
                return Some(Command::GeoSearch { lat, lon, radius });
            },
            _ => {
                return None;
            },
        }
    }
    if n == 2 && same_chars(&ts[0], &vec!['G', 'E', 'O', 'G', 'E', 'T']) {
        proof {
            lemma_words_are_tokens(cs@);
            assert(w[1] == words(cs@)[1]);
        }
        let key = string_of(&ts[1]);
        return Some(Command::GeoGet { key });
    }
    if n == 1 && same_chars(&ts[0], &vec!['H', 'E', 'A', 'R', 'T', 'B', 'E', 'A', 'T']) {
        return Some(Command::Heartbeat);
    }
    None
}

/// The characters with which `d` is written.
fn decimal_chars(d: &Decimal) -> (r: Vec<char>)
    requires
        d.wf(),
    ensures
        r@ == decimal_text(*d),
{
    let mut s = String::new();
    push_decimal(&mut s, d);
    chars_of(s.as_str())
}

/// Writes a command as one line of the protocol.
pub fn format_command(c: &Command) -> (r: String)
    requires
        command_wf(c@),
    ensures
        r@ == command_text(c@),
{
    let mut ts: Vec<Vec<char>> = Vec::new();
    match c {
        Command::GeoAdd { key, coords } => {
            ts.push(vec!['G', 'E', 'O', 'A', 'D', 'D']);
            ts.push(chars_of(key.as_str()));
            let mut i: usize = 0;
            proof {
                assert(coords@.skip(0) =~= coords@);
                assert(views(ts@) =~= seq![geoadd_word(), key@]);
            }
            while i < coords.len()
                invariant
                    i <= coords.len(),
                    coords_wf(coords@),
                    views(ts@) + coord_tokens(coords@.skip(i as int)) == tokens_of(c@),
                decreases coords.len() - i,
            {
                let ghost rest = coords@.skip(i as int);
                proof {
                    assert(rest.drop_first() =~= coords@.skip(i as int + 1));
                    assert(coords@[i as int].0.wf() && coords@[i as int].1.wf());
                }
                let ghost v0 = views(ts@);
                let (lat, lon) = coords[i];
                ts.push(decimal_chars(&lat));
                ts.push(decimal_chars(&lon));
                proof {
                    assert(views(ts@) =~= v0 + seq![decimal_text(lat), decimal_text(lon)]);
                    assert(views(ts@) + coord_tokens(coords@.skip(i as int + 1)) =~= v0
                        + coord_tokens(rest));
                }
                i += 1;
            }
            proof {
                assert(coords@.skip(i as int) =~= Seq::<(Decimal, Decimal)>::empty());
                assert(views(ts@) =~= views(ts@) + coord_tokens(coords@.skip(i as int)));
            }
        },
        Command::GeoSearch { lat, lon, radius } => {
            ts.push(vec!['G', 'E', 'O', 'S', 'E', 'A', 'R', 'C', 'H']);
            ts.push(decimal_chars(lat));
            ts.push(decimal_chars(lon));
            ts.push(decimal_chars(radius));
            proof {
                assert(views(ts@) =~= tokens_of(c@));
            }
        },
        Command::GeoGet { key } => {
            ts.push(vec!['G', 'E', 'O', 'G', 'E', 'T']);
            ts.push(chars_of(key.as_str()));
            proof {
                assert(views(ts@) =~= tokens_of(c@));
            }
        },
        Command::Heartbeat => {
            ts.push(vec!['H', 'E', 'A', 'R', 'T', 'B', 'E', 'A', 'T']);
            proof {
                assert(views(ts@) =~= tokens_of(c@));
            }
        },
    }
    join_tokens(&ts)
}

} // verus!
