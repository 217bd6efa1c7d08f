//! A node's state and its answer to one request line: the decisions of the
//! connection handler, with the network left to the caller.
use crate::command::{command_of, command_text, format_command, parse_command, Command, CommandView};
use crate::decimal::{copy_pairs, Decimal};
use crate::persistence::{wal_record, WalEntry};
use crate::replica::{alive_at, is_dead, lists, LiveReplicas, Role};
use crate::storage::{
    format_search, geometry_of, geometry_text, search_text, string_views, Candidate, GeoDatabase,
    GeometryView,
};
use vstd::prelude::*;

verus! {

/// What the caller does with a request line.
pub enum Reply {
    /// Send `text` back. On the leader, a write also hands out its log
    /// `record`, to append after the store has changed.
    Text { text: String, record: Option<String> },
    /// Relay the raw line to the leader and send back its answer.
    Forward,
    /// Measure each candidate's great-circle distance to `(lat, lon)`, decide
    /// whether it is within `radius` metres, then call `finish_search`.
    Search { lat: Decimal, lon: Decimal, radius: Decimal, cands: Vec<Candidate> },
}

pub open spec fn ok_text() -> Seq<char> {
    seq!['O', 'K', '\n']
}

pub open spec fn error_text() -> Seq<char> {
    seq!['E', 'R', 'R', 'O', 'R', '\n']
}

pub open spec fn not_found_text() -> Seq<char> {
    seq!['N', 'o', 't', ' ', 'F', 'o', 'u', 'n', 'd', '\n']
}

/// The answer to `GEOGET` for what the store holds under the key.
pub open spec fn get_text(g: Option<GeometryView>) -> Seq<char> {
    match g {
        Some(g) => geometry_text(g) + seq!['\n'],
        None => not_found_text(),
    }
}

/// The state of one node: its role, its store, and, on the leader, the
/// replicas it has heard from.
pub struct Replica {
    pub role: Role,
    pub db: GeoDatabase,
    pub live: LiveReplicas,
}

impl Replica {
    pub open spec fn wf(&self) -> bool {
        self.db.wf() && self.live.wf()
    }

    /// A node with an empty store and no live replicas.
    pub fn new(role: Role) -> (r: Replica)
        ensures
            r.wf(),
            r.role == role,
            r.db@ == Map::<Seq<char>, GeometryView>::empty(),
            r.live@ == Map::<Seq<char>, u64>::empty(),
    {
        Replica { role, db: GeoDatabase::new(), live: LiveReplicas::new() }
    }

    /// A node holding `db`.
    pub fn with_store(role: Role, db: GeoDatabase) -> (r: Replica)
        requires
            db.wf(),
        ensures
            r.wf(),
            r.role == role,
            r.db == db,
            r.live@ == Map::<Seq<char>, u64>::empty(),
    {
        Replica { role, db, live: LiveReplicas::new() }
    }

    /// Records a heartbeat from the replica at `addr`, received at `now`.
    pub fn handle_heartbeat(&mut self, addr: String, now: u64)
        requires
            old(self).wf(),
        ensures
            final(self).wf(),
            final(self).role == old(self).role,
            final(self).db == old(self).db,
            final(self).live@ == old(self).live@.insert(addr@, now),
    {
        self.live.handle_heartbeat(addr, now);
    }

    /// One sweep of the monitor at `now`: drops the replicas not heard from
    /// for more than `DEAD_TIMEOUT_S` seconds, and returns them.
    pub fn monitor_replicas(&mut self, now: u64) -> (dead: Vec<String>)
        requires
            old(self).wf(),
        ensures
            final(self).wf(),
            final(self).role == old(self).role,
            final(self).db == old(self).db,
            final(self).live@ == alive_at(old(self).live@, now),
            forall|k: Seq<char>| #[trigger] lists(dead@, k) <==> (old(self).live@.contains_key(k) && is_dead(
                old(self).live@[k],
                now,
            )),
    {
        self.live.monitor_replicas(now)
    }

    /// Answers one request line from `peer`, received at time `now` (seconds).
    #[verifier::rlimit(100)]
    pub fn handle_line(&mut self, line: &str, peer: &String, now: u64) -> (r: Reply)
        requires
            old(self).wf(),
        ensures
            final(self).wf(),
            final(self).role == old(self).role,
            match command_of(line@) {
                None => r matches Reply::Text { text, record: None } && text@ == error_text()
                    && final(self).db@ == old(self).db@ && final(self).live@ == old(self).live@,
                Some(CommandView::GeoAdd { key, coords }) => if old(self).role == Role::Leader {
                    r matches Reply::Text { text, record: Some(rec) } && text@ == ok_text()
                        && rec@ == command_text(CommandView::GeoAdd { key, coords })
                        && final(self).db@ == old(self).db@.insert(key, geometry_of(coords))
                        && final(self).db.entries_view() == crate::storage::add_entry(old(self).db.entries_view(), key, geometry_of(coords))
                        && final(self).live@ == old(self).live@
                } else {
                    r is Forward && final(self).db@ == old(self).db@ && final(self).live@ == old(self).live@
                },
                Some(CommandView::GeoSearch { lat, lon, radius }) => (r matches Reply::Search { lat: a, lon: b, radius: c, cands }
                    && a == lat && b == lon && c == radius && old(self).db.nearest_order(lat, lon, cands@))
                    && final(self).db@ == old(self).db@ && final(self).live@ == old(self).live@,
                Some(CommandView::GeoGet { key }) => r matches Reply::Text { text, record: None }
                    && text@ == get_text(if old(self).db@.contains_key(key) { Some(old(self).db@[key]) } else { None })
                    && final(self).db@ == old(self).db@ && final(self).live@ == old(self).live@,
                Some(CommandView::Heartbeat) => if old(self).role == Role::Leader {
                    r matches Reply::Text { text, record: None } && text@ == ok_text()
                        && final(self).live@ == old(self).live@.insert(peer@, now) && final(self).db@ == old(self).db@
                } else {
                    r matches Reply::Text { text, record: None } && text@ == error_text()
                        && final(self).db@ == old(self).db@ && final(self).live@ == old(self).live@
                },
            },
            final(self).db.entries_view() == old(self).db.entries_view() || (
                command_of(line@) matches Some(CommandView::GeoAdd { .. }) && old(self).role == Role::Leader),
    {
        proof {
            reveal_strlit("OK\n");
            reveal_strlit("ERROR\n");
            reveal_strlit("Not Found\n");
            reveal_strlit("\n");
        }
        match parse_command(line) {
            None => Reply::Text { text: String::from_str("ERROR\n"), record: None },
            Some(Command::GeoAdd { key, coords }) => {
                if self.role == Role::Leader {
                    let record = wal_record(WalEntry::GeoAdd { key: key.clone(), coords: copy_pairs(&coords) });
                    self.db.geo_add(key, coords);
                    Reply::Text { text: String::from_str("OK\n"), record: Some(record) }
                } else {
                    Reply::Forward
                }
            },
            Some(Command::GeoSearch { lat, lon, radius }) => {
                let cands = self.db.nearest_points(&lat, &lon);
                Reply::Search { lat, lon, radius, cands }
            },
            Some(Command::GeoGet { key }) => {
                match self.db.geo_get(key.as_str()) {
                    Some(g) => {
                        let mut text = g;
                        text.append("\n");
                        Reply::Text { text, record: None }
                    },
                    None => Reply::Text { text: String::from_str("Not Found\n"), record: None },
                }
            },
            Some(Command::Heartbeat) => {
                if self.role == Role::Leader {
                    self.live.handle_heartbeat(peer.clone(), now);
                    Reply::Text { text: String::from_str("OK\n"), record: None }
                } else {
                    Reply::Text { text: String::from_str("ERROR\n"), record: None }
                }
            },
        }
    }

    /// The answer to a search, once each candidate has its great-circle
    /// distance as an ordering key (`dists`) and its radius test (`within`):
    /// the keys, one per line, or a lone newline.
    pub fn finish_search(&self, cands: &Vec<Candidate>, dists: &Vec<u64>, within: &Vec<bool>, lat: &Decimal, lon: &Decimal, radius: &Decimal) -> (r: String)
        requires
            self.wf(),
            lat.wf() && lon.wf() && radius.wf(),
            self.db.nearest_order(*lat, *lon, cands@),
            within.len() == cands.len(),
            dists.len() == cands.len(),
        ensures
            r@ == search_text(self.db.search_spec(cands@, dists@, within@, *lat, *lon, *radius)),
    {
        let keys = self.db.geo_search(cands, dists, within, lat, lon, radius);
        format_search(&keys)
    }
}

/// What a replica sends back for a forwarded write: the leader's answer, or
/// `ERROR` when the leader could not be reached.
pub fn forward_outcome(leader_answer: Option<String>) -> (r: String)
    ensures
        r@ == match leader_answer {
            Some(a) => a@,
            None => error_text(),
        },
{
    proof {
        reveal_strlit("ERROR\n");
    }
    match leader_answer {
        Some(a) => a,
        None => String::from_str("ERROR\n"),
    }
}

/// Where a replica's heartbeat sender stands with the leader.
#[derive(Clone, Copy, Debug, PartialEq, Eq, Structural)]
pub enum HeartbeatState {
    Disconnected,
    Connected,
}

/// What happened since the sender's last step.
#[derive(Clone, Copy, Debug, PartialEq, Eq, Structural)]
pub enum HeartbeatEvent {
    /// A heartbeat period has passed.
    Tick,
    /// The connection to the leader was opened.
    ConnectOk,
    /// Opening the connection failed.
    ConnectFailed,
    /// The heartbeat was written.
    SendOk,
    /// Writing the heartbeat failed.
    SendFailed,
}

/// What the sender does next.
pub enum HeartbeatAction {
    /// Open a connection to the leader.
    Connect,
    /// Write `text` on the connection.
    Send { text: String },
    /// Wait for the next period.
    Wait,
}

/// One step of a replica's heartbeat sender. Each period it sends
/// `HEARTBEAT` on its connection, opening one first if it has none; a failed
/// write drops the connection and reconnects at once; a failed connect waits
/// for the next period and tries again.
pub fn heartbeat_step(s: HeartbeatState, e: HeartbeatEvent) -> (r: (HeartbeatState, HeartbeatAction))
    ensures
        match e {
            HeartbeatEvent::Tick => if s == HeartbeatState::Connected {
                r.0 == HeartbeatState::Connected && (r.1 matches HeartbeatAction::Send { text }
                    && text@ == command_text(CommandView::Heartbeat))
            } else {
                r.0 == HeartbeatState::Disconnected && r.1 is Connect
            },
            HeartbeatEvent::ConnectOk => r.0 == HeartbeatState::Connected && (r.1 matches HeartbeatAction::Send { text }
                && text@ == command_text(CommandView::Heartbeat)),
            HeartbeatEvent::ConnectFailed => r.0 == HeartbeatState::Disconnected && r.1 is Wait,
            HeartbeatEvent::SendOk => r.0 == HeartbeatState::Connected && r.1 is Wait,
            HeartbeatEvent::SendFailed => r.0 == HeartbeatState::Disconnected && r.1 is Connect,
        },
{
    match e {
        HeartbeatEvent::Tick => {
            if s == HeartbeatState::Connected {
                (HeartbeatState::Connected, HeartbeatAction::Send { text: format_command(&Command::Heartbeat) })
            } else {
                (HeartbeatState::Disconnected, HeartbeatAction::Connect)
            }
        },
        HeartbeatEvent::ConnectOk => (
            HeartbeatState::Connected,
            HeartbeatAction::Send { text: format_command(&Command::Heartbeat) },
        ),
        HeartbeatEvent::ConnectFailed => (HeartbeatState::Disconnected, HeartbeatAction::Wait),
        HeartbeatEvent::SendOk => (HeartbeatState::Connected, HeartbeatAction::Wait),
        HeartbeatEvent::SendFailed => (HeartbeatState::Disconnected, HeartbeatAction::Connect),
    }
}

} // verus!
