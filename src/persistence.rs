//! Durability: write-ahead-log records, their replay, and snapshots.
//!
//! A record is the protocol line of the `GEOADD` it stands for, newline
//! included, so the log is a text of complete lines. A snapshot is the list of
//! records that rebuilds the store, one per entry, in storage order.
use crate::command::{
    command_of, command_text, command_wf, format_command, lemma_parse_format, lemma_tokens_of_wf,
    parse_command,
    Command, CommandView,
};
use crate::decimal::Decimal;
use crate::storage::{add_entry, entry_wf, geometry_of, swapped, GeoDatabase, Geometry, GeometryView};
use crate::keyed::{keys_unique, to_map};
use crate::text::{chars_of, string_of};
use vstd::prelude::*;

verus! {

/// The complete lines of `s` from position `i`, each with its `\n`; `st` is
/// where the current line began. A last fragment without `\n` is not a line.
pub open spec fn lines_from(s: Seq<char>, i: int, st: int) -> Seq<Seq<char>>
    decreases s.len() - i,
{
    if i < 0 || i >= s.len() {
        Seq::empty()
    } else if s[i] == '\n' {
        seq![s.subrange(st, i + 1)] + lines_from(s, i + 1, i + 1)
    } else {
        lines_from(s, i + 1, st)
    }
}

pub open spec fn wal_lines(s: Seq<char>) -> Seq<Seq<char>> {
    lines_from(s, 0, 0)
}

/// Whether the log ends in a fragment of a record, as a crash during a write
/// leaves it.
pub open spec fn torn_tail(s: Seq<char>) -> bool {
    s.len() > 0 && s.last() != '\n'
}

/// Applies the records `ls` in order to the entries `ents`, up to the first
/// line that is no `GEOADD`; gives the entries and how many records applied.
pub open spec fn replay(ents: Seq<(Seq<char>, GeometryView)>, ls: Seq<Seq<char>>) -> (Seq<(Seq<char>, GeometryView)>, nat)
    decreases ls.len(),
{
    if ls.len() == 0 {
        (ents, 0)
    } else {
        match command_of(ls[0]) {
            Some(CommandView::GeoAdd { key, coords }) => {
                let r = replay(add_entry(ents, key, geometry_of(coords)), ls.drop_first());
                (r.0, r.1 + 1)
            },
            _ => (ents, 0),
        }
    }
}

/// Why a replay stopped early.
#[derive(Clone, Copy, Debug, PartialEq, Eq, Structural)]
pub enum ReplayError {
    /// The record at this position (counted from zero) is malformed.
    BadRecord { index: usize },
    /// The log ends in an incomplete record.
    TornRecord,
}

/// The outcome that replaying the log `s` owes: the number of records, or
/// where it stopped.
pub open spec fn replay_outcome(applied: nat, s: Seq<char>) -> Result<usize, ReplayError> {
    if applied < wal_lines(s).len() {
        Err(ReplayError::BadRecord { index: applied as usize })
    } else if torn_tail(s) {
        Err(ReplayError::TornRecord)
    } else {
        Ok(applied as usize)
    }
}

/// The `(lat, lon)` coordinates with which a stored geometry is written.
pub open spec fn coords_of_geometry(g: GeometryView) -> Seq<(Decimal, Decimal)> {
    match g {
        GeometryView::Point { lon, lat } => seq![(lat, lon)],
        GeometryView::Polygon { ring } => swapped(ring),
    }
}

/// A write: a key and its `(lat, lon)` coordinates.
pub type GeoWrite = (Seq<char>, Seq<(Decimal, Decimal)>);

/// A write that the protocol can carry.
pub open spec fn write_wf(w: GeoWrite) -> bool {
    command_wf(CommandView::GeoAdd { key: w.0, coords: w.1 })
}

/// The record of one write.
pub open spec fn write_record(w: GeoWrite) -> Seq<char> {
    command_text(CommandView::GeoAdd { key: w.0, coords: w.1 })
}

/// The records of a list of writes, in order.
pub open spec fn records_text(ws: Seq<GeoWrite>) -> Seq<char>
    decreases ws.len(),
{
    if ws.len() == 0 {
        Seq::empty()
    } else {
        write_record(ws[0]) + records_text(ws.drop_first())
    }
}

/// The entries after performing the writes `ws` in order.
pub open spec fn apply_writes(ents: Seq<(Seq<char>, GeometryView)>, ws: Seq<GeoWrite>) -> Seq<(Seq<char>, GeometryView)>
    decreases ws.len(),
{
    if ws.len() == 0 {
        ents
    } else {
        apply_writes(add_entry(ents, ws[0].0, geometry_of(ws[0].1)), ws.drop_first())
    }
}

/// The map after performing the writes `ws` in order.
pub open spec fn apply_writes_map(m: Map<Seq<char>, GeometryView>, ws: Seq<GeoWrite>) -> Map<Seq<char>, GeometryView>
    decreases ws.len(),
{
    if ws.len() == 0 {
        m
    } else {
        apply_writes_map(m.insert(ws[0].0, geometry_of(ws[0].1)), ws.drop_first())
    }
}

/// The write that restores an entry.
pub open spec fn entry_write(e: (Seq<char>, GeometryView)) -> GeoWrite {
    (e.0, coords_of_geometry(e.1))
}

/// The snapshot of a list of entries: their records, in order.
pub open spec fn snapshot_text(ents: Seq<(Seq<char>, GeometryView)>) -> Seq<char> {
    records_text(ents.map_values(|e: (Seq<char>, GeometryView)| entry_write(e)))
}

/// A write as the log keeps it.
pub enum WalEntry {
    GeoAdd { key: String, coords: Vec<(Decimal, Decimal)> },
}

/// The record that logs `GEOADD key coords`.
pub fn wal_record(entry: WalEntry) -> (r: String)
    requires
        entry matches WalEntry::GeoAdd { key, coords } && command_wf(CommandView::GeoAdd { key: key@, coords: coords@ }),
    ensures
        entry matches WalEntry::GeoAdd { key, coords } && r@ == command_text(CommandView::GeoAdd { key: key@, coords: coords@ }),
{
    match entry {
        WalEntry::GeoAdd { key, coords } => {
            let c = Command::GeoAdd { key, coords };
            format_command(&c)
        },
    }
}

/// Applies the log `wal` to `db`, record by record, and stops at the first
/// malformed record or at an incomplete last one; what was applied stays.
#[verifier::rlimit(100)]
pub fn load_wal(db: &mut GeoDatabase, wal: &str) -> (r: Result<usize, ReplayError>)
    requires
        old(db).wf(),
    ensures
        final(db).wf(),
        final(db).entries_view() == replay(old(db).entries_view(), wal_lines(wal@)).0,
        r == replay_outcome(replay(old(db).entries_view(), wal_lines(wal@)).1, wal@),
{
    let cs = chars_of(wal);
    let ghost s = cs@;
    let ghost e0 = db.entries_view();
    let n = cs.len();
    let mut st: usize = 0;
    let mut i: usize = 0;
    let mut count: usize = 0;
    while i < n
        invariant
            n == cs.len(),
            s == cs@,
            s == wal@,
            e0 == old(db).entries_view(),
            st <= i <= n,
            st == 0 || s[st - 1] == '\n',
            forall|m: int| st <= m < i ==> s[m] != '\n',
            db.wf(),
            count <= i,
            lines_from(s, 0, 0).len() == count + lines_from(s, i as int, st as int).len(),
            replay(e0, wal_lines(s)) == ({
                let r = replay(db.entries_view(), lines_from(s, i as int, st as int));
                (r.0, (r.1 + count) as nat)
            }),
        decreases n - i,
    {
        if cs[i] == '\n' {
            let mut line: Vec<char> = Vec::new();
            let mut j: usize = st;
            while j <= i
                invariant
                    st <= j <= i + 1,
                    i < n == cs.len(),
                    line@ == cs@.subrange(st as int, j as int),
                decreases i + 1 - j,
            {
                line.push(cs[j]);
                j += 1;
                proof {
                    assert(line@ =~= cs@.subrange(st as int, j as int));
                }
            }
            let text = string_of(&line);
            let ghost rest = lines_from(s, i as int + 1, i as int + 1);
            proof {
                assert(lines_from(s, i as int, st as int) == seq![line@] + rest);
                assert((seq![line@] + rest)[0] == line@);
                assert((seq![line@] + rest).drop_first() =~= rest);
            }
            let ghost before = db.entries_view();
            match parse_command(text.as_str()) {
                Some(Command::GeoAdd { key, coords }) => {
                    let ghost k = key@;
                    let ghost c = coords@;
                    db.geo_add(key, coords);
                    count += 1;
                    proof {
                        assert(command_of(line@) == Some(CommandView::GeoAdd { key: k, coords: c }));
                        assert(replay(before, seq![line@] + rest) == ({
                            let r = replay(add_entry(before, k, geometry_of(c)), rest);
                            (r.0, r.1 + 1)
                        }));
                    }
                },
                parsed => {
                    proof {
                        assert(!(command_of(line@) matches Some(CommandView::GeoAdd { .. })));
                        assert(replay(before, seq![line@] + rest) == (before, 0nat));
                        assert(replay(before, lines_from(s, i as int, st as int)) == (before, 0nat));
                        assert(replay(e0, wal_lines(s)) == (before, count as nat));
                        assert(lines_from(s, i as int, st as int).len() >= 1);
                        assert(wal_lines(s).len() > count);
                        assert(wal@ == s);
                    }
                    return Err(ReplayError::BadRecord { index: count });
                },
            }
            st = i + 1;
        } else {
            proof {
                assert(lines_from(s, i as int, st as int) == lines_from(s, i as int + 1, st as int));
            }
        }
        i += 1;
    }
    if st < n {
        proof {
            assert(s[n - 1] != '\n');
        }
        return Err(ReplayError::TornRecord);
    }
    proof {
        if n > 0 {
            assert(s[n - 1] == '\n');
        }
    }
    Ok(count)
}

/// A fresh store holding what the snapshot `text` records; an empty store
/// when the snapshot does not load whole.
pub fn load_snapshot(text: &str) -> (r: (GeoDatabase, Result<usize, ReplayError>))
    ensures
        r.0.wf(),
        r.1 == replay_outcome(replay(Seq::empty(), wal_lines(text@)).1, text@),
        r.1 is Ok ==> r.0.entries_view() == replay(Seq::empty(), wal_lines(text@)).0,
        r.1 is Err ==> r.0.entries_view() == Seq::<(Seq<char>, GeometryView)>::empty()
            && r.0@ == Map::<Seq<char>, GeometryView>::empty(),
{
    let mut db = GeoDatabase::new();
    let res = load_wal(&mut db, text);
    match res {
        Ok(_) => (db, res),
        Err(_) => (GeoDatabase::new(), res),
    }
}

/// How each step of recovery ended.
#[derive(Clone, Copy, Debug)]
pub struct RecoveryReport {
    /// How loading the snapshot ended, if there was one.
    pub snapshot: Option<Result<usize, ReplayError>>,
    /// How replaying the log ended, if there was one.
    pub wal: Option<Result<usize, ReplayError>>,
}

pub open spec fn opt_text(t: Option<&str>) -> Option<Seq<char>> {
    match t {
        Some(t) => Some(t@),
        None => None,
    }
}

/// The entries that recovery starts the log from: the snapshot's if it loaded
/// whole, else none.
pub open spec fn recovery_base(snapshot: Option<Seq<char>>) -> Seq<(Seq<char>, GeometryView)> {
    match snapshot {
        Some(t) => if replay_outcome(replay(Seq::empty(), wal_lines(t)).1, t) is Ok {
            replay(Seq::empty(), wal_lines(t)).0
        } else {
            Seq::empty()
        },
        None => Seq::empty(),
    }
}

/// The store a leader starts with: the snapshot, if one exists and loads
/// whole, then the log, if one exists, replayed on top.
pub fn recover(snapshot: Option<&str>, wal: Option<&str>) -> (r: (GeoDatabase, RecoveryReport))
    ensures
        r.0.wf(),
        r.0.entries_view() == match wal {
            Some(w) => replay(recovery_base(opt_text(snapshot)), wal_lines(w@)).0,
            None => recovery_base(opt_text(snapshot)),
        },
        r.1.snapshot == match snapshot {
            Some(t) => Some(replay_outcome(replay(Seq::empty(), wal_lines(t@)).1, t@)),
            None => None::<Result<usize, ReplayError>>,
        },
        r.1.wal == match wal {
            Some(w) => Some(replay_outcome(replay(recovery_base(opt_text(snapshot)), wal_lines(w@)).1, w@)),
            None => None::<Result<usize, ReplayError>>,
        },
{
    let mut report = RecoveryReport { snapshot: None, wal: None };
    let mut db = match snapshot {
        Some(t) => {
            let (loaded, res) = load_snapshot(t);
            report.snapshot = Some(res);
            loaded
        },
        None => GeoDatabase::new(),
    };
    match wal {
        Some(w) => {
            let res = load_wal(&mut db, w);
            report.wal = Some(res);
        },
        None => {},
    }
    (db, report)
}

/// The coordinates with which a stored geometry is written back.
fn geometry_coords(g: &Geometry) -> (r: Vec<(Decimal, Decimal)>)
    ensures
        r@ == coords_of_geometry(g@),
{
    match g {
        Geometry::Point { lon, lat } => {
            let mut v: Vec<(Decimal, Decimal)> = Vec::new();
            v.push((*lat, *lon));
            proof {
                assert(v@ =~= seq![(*lat, *lon)]);
            }
            v
        },
        Geometry::Polygon { ring } => {
            let mut v: Vec<(Decimal, Decimal)> = Vec::new();
            let mut i: usize = 0;
            while i < ring.len()
                invariant
                    i <= ring.len(),
                    v@ == swapped(ring@.take(i as int)),
                decreases ring.len() - i,
            {
                v.push((ring[i].1, ring[i].0));
                i += 1;
                proof {
                    assert(v@ =~= swapped(ring@.take(i as int)));
                }
            }
            proof {
                assert(ring@.take(i as int) =~= ring@);
            }
            v
        },
    }
}

/// Writes the snapshot of `db`: one record per entry, in storage order.
pub fn create_snapshot(db: &GeoDatabase) -> (r: String)
    requires
        db.wf(),
    ensures
        r@ == snapshot_text(db.entries_view()),
{
    let ghost ws = db.entries_view().map_values(|e: (Seq<char>, GeometryView)| entry_write(e));
    proof {
        db.lemma_db_view();
        assert(ws.skip(0) =~= ws);
    }
    let mut out = String::new();
    let mut i: usize = 0;
    while i < db.len()
        invariant
            db.wf(),
            i <= db.entries_view().len(),
            ws == db.entries_view().map_values(|e: (Seq<char>, GeometryView)| entry_write(e)),
            forall|j: int| 0 <= j < db.entries_view().len() ==> entry_wf(#[trigger] db.entries_view()[j]),
            out@ + records_text(ws.skip(i as int)) == records_text(ws),
        decreases db.entries_view().len() - i,
    {
        let (key, g) = db.entry(i);
        let coords = geometry_coords(g);
        proof {
            assert(entry_wf(db.entries_view()[i as int]));
            lemma_entry_write_wf(db.entries_view()[i as int]);
            assert(ws[i as int] == entry_write(db.entries_view()[i as int]));
            assert(ws.skip(i as int).drop_first() =~= ws.skip(i as int + 1));
        }
        let rec = wal_record(WalEntry::GeoAdd { key: key.clone(), coords });
        let ghost o = out@;
        out.append(rec.as_str());
        i += 1;
        proof {
            assert(out@ + records_text(ws.skip(i as int)) =~= o + records_text(ws.skip(i as int - 1)));
        }
    }
    proof {
        assert(ws.skip(i as int) =~= Seq::<GeoWrite>::empty());
        assert(out@ =~= out@ + records_text(ws.skip(i as int)));
    }
    out
}

proof fn lemma_entry_write_wf(e: (Seq<char>, GeometryView))
    requires
        entry_wf(e),
    ensures
        write_wf(entry_write(e)),
        geometry_of(entry_write(e).1) == e.1,
{
    match e.1 {
        GeometryView::Point { lon, lat } => {
            assert(seq![(lat, lon)][0] == (lat, lon));
        },
        GeometryView::Polygon { ring } => {
            let c = swapped(ring);
            assert forall|i: int| 0 <= i < c.len() implies (#[trigger] c[i]).0.wf() && c[i].1.wf() by {
                assert(ring[i].0.wf() && ring[i].1.wf());
            }
            assert(swapped(c) =~= ring);
        },
    }
}

/// The complete lines of `pre + t` from inside `t` are those of `t`.
proof fn lemma_lines_shift(pre: Seq<char>, t: Seq<char>, i: int, st: int)
    requires
        0 <= st <= i <= t.len(),
    ensures
        lines_from(pre + t, pre.len() + i, pre.len() + st) == lines_from(t, i, st),
    decreases t.len() - i,
{
    let x = pre + t;
    if i < t.len() {
        assert(x[pre.len() + i] == t[i]);
        lemma_lines_shift(pre, t, i + 1, if t[i] == '\n' { i + 1 } else { st });
        if t[i] == '\n' {
            assert(x.subrange(pre.len() + st, pre.len() + i + 1) =~= t.subrange(st, i + 1));
        }
    }
}

proof fn lemma_lines_inside(x: Seq<char>, r: Seq<char>, i: int)
    requires
        r.len() >= 1,
        r.len() <= x.len(),
        x.subrange(0, r.len() as int) == r,
        forall|m: int| 0 <= m < r.len() - 1 ==> #[trigger] r[m] != '\n',
        0 <= i <= r.len() - 1,
    ensures
        lines_from(x, i, 0) == lines_from(x, r.len() - 1, 0),
    decreases r.len() - 1 - i,
{
    if i < r.len() - 1 {
        assert(x[i] == r[i]);
        lemma_lines_inside(x, r, i + 1);
    }
}

/// The lines of a record followed by more text: the record, then the lines
/// of the rest.
proof fn lemma_lines_record(r: Seq<char>, rest: Seq<char>)
    requires
        r.len() >= 1,
        r.last() == '\n',
        forall|m: int| 0 <= m < r.len() - 1 ==> #[trigger] r[m] != '\n',
    ensures
        wal_lines(r + rest) == seq![r] + wal_lines(rest),
{
    let x = r + rest;
    assert(x.subrange(0, r.len() as int) =~= r);
    lemma_lines_inside(x, r, 0);
    assert(x[r.len() - 1] == '\n');
    lemma_lines_shift(r, rest, 0, 0);
}

proof fn lemma_write_record(w: GeoWrite)
    requires
        write_wf(w),
    ensures
        command_of(write_record(w)) == Some(CommandView::GeoAdd { key: w.0, coords: w.1 }),
        write_record(w).len() >= 1,
        write_record(w).last() == '\n',
        forall|m: int| 0 <= m < write_record(w).len() - 1 ==> #[trigger] write_record(w)[m] != '\n',
{
    let c = CommandView::GeoAdd { key: w.0, coords: w.1 };
    lemma_parse_format(c);
    lemma_tokens_of_wf(c);
    crate::text::lemma_joined_newline(crate::command::tokens_of(c));
}

/// Replaying the records of a list of writes performs exactly those writes, in
/// order; the log they form has no torn tail.
pub proof fn lemma_wal_recovery(ents: Seq<(Seq<char>, GeometryView)>, ws: Seq<GeoWrite>)
    requires
        forall|i: int| 0 <= i < ws.len() ==> write_wf(#[trigger] ws[i]),
    ensures
        replay(ents, wal_lines(records_text(ws))) == (apply_writes(ents, ws), ws.len()),
        !torn_tail(records_text(ws)),
    decreases ws.len(),
{
    if ws.len() == 0 {
        assert(wal_lines(Seq::<char>::empty()) == Seq::<Seq<char>>::empty());
    } else {
        let w = ws[0];
        let rest = ws.drop_first();
        assert(write_wf(w));
        assert forall|i: int| 0 <= i < rest.len() implies write_wf(#[trigger] rest[i]) by {
            assert(rest[i] == ws[i + 1]);
        }
        lemma_write_record(w);
        lemma_wal_recovery(add_entry(ents, w.0, geometry_of(w.1)), rest);
        lemma_lines_record(write_record(w), records_text(rest));
        let ls = seq![write_record(w)] + wal_lines(records_text(rest));
        assert(ls[0] == write_record(w));
        assert(ls.drop_first() =~= wal_lines(records_text(rest)));
        let t = records_text(ws);
        if rest.len() == 0 {
            assert(records_text(rest) =~= Seq::<char>::empty());
            assert(t =~= write_record(w));
        } else {
            assert(t.last() == records_text(rest).last());
        }
    }
}

/// The map of the entries after some writes is the old map with those writes.
pub proof fn lemma_apply_writes_map(ents: Seq<(Seq<char>, GeometryView)>, ws: Seq<GeoWrite>)
    ensures
        to_map(apply_writes(ents, ws)) == apply_writes_map(to_map(ents), ws),
    decreases ws.len(),
{
    if ws.len() > 0 {
        crate::storage::lemma_to_map_add_entry(ents, ws[0].0, geometry_of(ws[0].1));
        lemma_apply_writes_map(add_entry(ents, ws[0].0, geometry_of(ws[0].1)), ws.drop_first());
    }
}

proof fn lemma_untouched(m: Map<Seq<char>, GeometryView>, ws: Seq<GeoWrite>, k: Seq<char>)
    requires
        forall|j: int| 0 <= j < ws.len() ==> (#[trigger] ws[j]).0 != k,
    ensures
        apply_writes_map(m, ws).contains_key(k) == m.contains_key(k),
        m.contains_key(k) ==> apply_writes_map(m, ws)[k] == m[k],
    decreases ws.len(),
{
    if ws.len() > 0 {
        let rest = ws.drop_first();
        assert(ws[0].0 != k);
        assert forall|j: int| 0 <= j < rest.len() implies (#[trigger] rest[j]).0 != k by {
            assert(rest[j] == ws[j + 1]);
        }
        lemma_untouched(m.insert(ws[0].0, geometry_of(ws[0].1)), rest, k);
    }
}

/// After a list of writes, a key holds the geometry of the last write to it.
pub proof fn lemma_last_write_wins(m: Map<Seq<char>, GeometryView>, ws: Seq<GeoWrite>, i: int)
    requires
        0 <= i < ws.len(),
        forall|j: int| i < j < ws.len() ==> (#[trigger] ws[j]).0 != ws[i].0,
    ensures
        apply_writes_map(m, ws).contains_key(ws[i].0),
        apply_writes_map(m, ws)[ws[i].0] == geometry_of(ws[i].1),
    decreases ws.len(),
{
    let rest = ws.drop_first();
    let m1 = m.insert(ws[0].0, geometry_of(ws[0].1));
    if i == 0 {
        assert forall|j: int| 0 <= j < rest.len() implies (#[trigger] rest[j]).0 != ws[0].0 by {
            assert(rest[j] == ws[j + 1]);
        }
        lemma_untouched(m1, rest, ws[0].0);
    } else {
        assert forall|j: int| i - 1 < j < rest.len() implies (#[trigger] rest[j]).0 != rest[i - 1].0 by {
            assert(rest[j] == ws[j + 1]);
        }
        lemma_last_write_wins(m1, rest, i - 1);
    }
}

proof fn lemma_restore(pre: Seq<(Seq<char>, GeometryView)>, t: Seq<(Seq<char>, GeometryView)>)
    requires
        keys_unique(pre + t),
        forall|i: int| 0 <= i < t.len() ==> entry_wf(#[trigger] t[i]),
    ensures
        apply_writes(pre, t.map_values(|e: (Seq<char>, GeometryView)| entry_write(e))) == pre + t,
    decreases t.len(),
{
    let ws = t.map_values(|e: (Seq<char>, GeometryView)| entry_write(e));
    if t.len() == 0 {
        assert(pre + t =~= pre);
    } else {
        let e = t[0];
        assert(entry_wf(e));
        lemma_entry_write_wf(e);
        assert(ws[0] == entry_write(e));
        assert forall|j: int| 0 <= j < pre.len() implies (#[trigger] pre[j]).0 != e.0 by {
            assert((pre + t)[j] == pre[j]);
            assert((pre + t)[pre.len() as int] == e);
        }
        crate::storage::lemma_remove_key_absent(pre, e.0);
        let pre2 = pre.push(e);
        let t2 = t.drop_first();
        assert(pre2 + t2 =~= pre + t);
        assert forall|i: int| 0 <= i < t2.len() implies entry_wf(#[trigger] t2[i]) by {
            assert(t2[i] == t[i + 1]);
        }
        lemma_restore(pre2, t2);
        assert(ws.drop_first() =~= t2.map_values(|e: (Seq<char>, GeometryView)| entry_write(e)));
    }
}

/// Loading the snapshot of a store gives back its entries, in order, and
/// reports every record applied.
pub proof fn lemma_snapshot_round_trip(ents: Seq<(Seq<char>, GeometryView)>)
    requires
        keys_unique(ents),
        forall|i: int| 0 <= i < ents.len() ==> entry_wf(#[trigger] ents[i]),
    ensures
        replay(Seq::empty(), wal_lines(snapshot_text(ents))).0 == ents,
        replay_outcome(replay(Seq::empty(), wal_lines(snapshot_text(ents))).1, snapshot_text(ents))
            == Ok::<usize, ReplayError>(ents.len() as usize),
{
    let ws = ents.map_values(|e: (Seq<char>, GeometryView)| entry_write(e));
    assert forall|i: int| 0 <= i < ws.len() implies write_wf(#[trigger] ws[i]) by {
        assert(entry_wf(ents[i]));
        lemma_entry_write_wf(ents[i]);
    }
    lemma_wal_recovery(Seq::empty(), ws);
    assert(Seq::<(Seq<char>, GeometryView)>::empty() + ents =~= ents);
    lemma_restore(Seq::empty(), ents);
    lemma_wal_line_count(ws);
}

proof fn lemma_wal_line_count(ws: Seq<GeoWrite>)
    requires
        forall|i: int| 0 <= i < ws.len() ==> write_wf(#[trigger] ws[i]),
    ensures
        wal_lines(records_text(ws)).len() == ws.len(),
    decreases ws.len(),
{
    if ws.len() == 0 {
        assert(wal_lines(Seq::<char>::empty()) == Seq::<Seq<char>>::empty());
    } else {
        let rest = ws.drop_first();
        assert forall|i: int| 0 <= i < rest.len() implies write_wf(#[trigger] rest[i]) by {
            assert(rest[i] == ws[i + 1]);
        }
        assert(write_wf(ws[0]));
        lemma_write_record(ws[0]);
        lemma_lines_record(write_record(ws[0]), records_text(rest));
        lemma_wal_line_count(rest);
    }
}

/// A leader restarted after a snapshot, with the log emptied when the
/// snapshot was written, holds the entries it had, in order; so every search
/// answers as before.
pub proof fn lemma_restart_after_snapshot(ents: Seq<(Seq<char>, GeometryView)>)
    requires
        keys_unique(ents),
        forall|i: int| 0 <= i < ents.len() ==> entry_wf(#[trigger] ents[i]),
    ensures
        recovery_base(Some(snapshot_text(ents))) == ents,
        replay(recovery_base(Some(snapshot_text(ents))), wal_lines(Seq::empty())).0 == ents,
{
    lemma_snapshot_round_trip(ents);
    assert(wal_lines(Seq::<char>::empty()) == Seq::<Seq<char>>::empty());
}

} // verus!
