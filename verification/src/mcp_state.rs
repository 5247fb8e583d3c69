//! The state of the MCP servers the application runs: which are starting,
//! running, stopped or failed, which have a live client, and which server the
//! chat talks to.
//!
//! Starting a server and talking to it are done by the caller, which keeps
//! the live clients keyed by server id; this module decides what each outcome
//! does to the state.

use vstd::prelude::*;

use crate::server_config::ServerConfig;
use crate::text::{concat, str_eq};

verus! {

/// The state of a started MCP server.
#[derive(Debug, Clone, PartialEq)]
pub enum ServerStatus {
    Running,
    Failed(String),
    Stopped,
    Starting,
}

/// The model of a server status.
pub enum StatusView {
    Running,
    Failed(Seq<char>),
    Stopped,
    Starting,
}

impl ServerStatus {
    pub open spec fn view(&self) -> StatusView {
        match self {
            ServerStatus::Running => StatusView::Running,
            ServerStatus::Failed(e) => StatusView::Failed(e@),
            ServerStatus::Stopped => StatusView::Stopped,
            ServerStatus::Starting => StatusView::Starting,
        }
    }

    /// A copy of the status.
    pub fn copy(&self) -> (r: ServerStatus)
        ensures
            r@ == self@,
    {
        match self {
            ServerStatus::Running => ServerStatus::Running,
            ServerStatus::Failed(e) => ServerStatus::Failed(e.clone()),
            ServerStatus::Stopped => ServerStatus::Stopped,
            ServerStatus::Starting => ServerStatus::Starting,
        }
    }
}

/// Where starting a server failed: launching its process, or the MCP
/// handshake.
#[derive(Debug, Clone, Copy, PartialEq, Eq)]
pub enum StartStage {
    Transport,
    Initialize,
}

/// What toggling a server asks for.
#[derive(Debug, Clone, Copy, PartialEq, Eq)]
pub enum ToggleAction {
    /// Stop the running server.
    Stop,
    /// Start the server.
    Start,
    /// Nothing: the server is starting or has failed.
    Nothing,
}

/// The status recorded for `id` in `e`, if any.
pub open spec fn status_in(e: Seq<(Seq<char>, StatusView)>, id: Seq<char>) -> Option<StatusView>
    decreases e.len(),
{
    if e.len() == 0 {
        None
    } else if e.last().0 == id {
        Some(e.last().1)
    } else {
        status_in(e.drop_last(), id)
    }
}

/// `e` with the status of `id` set to `st`.
pub open spec fn with_status(e: Seq<(Seq<char>, StatusView)>, id: Seq<char>, st: StatusView) -> Seq<(Seq<char>, StatusView)> {
    if exists|i: int| 0 <= i < e.len() && e[i].0 == id {
        let i = choose|i: int| 0 <= i < e.len() && e[i].0 == id;
        e.update(i, (id, st))
    } else {
        e.push((id, st))
    }
}

/// No id occurs twice in `e`.
pub open spec fn ids_unique(e: Seq<(Seq<char>, StatusView)>) -> bool {
    forall|i: int, j: int| 0 <= i < e.len() && 0 <= j < e.len() && e[i].0 == e[j].0 ==> i == j
}

/// `active` without `id`.
pub open spec fn without_id(active: Seq<Seq<char>>, id: Seq<char>) -> Seq<Seq<char>>
    decreases active.len(),
{
    if active.len() == 0 {
        active
    } else if active.last() != id {
        without_id(active.drop_last(), id).push(active.last())
    } else {
        without_id(active.drop_last(), id)
    }
}

/// The failure text of a server that failed at `stage` with `error`.
pub open spec fn failure_text(stage: StartStage, error: Seq<char>) -> Seq<char> {
    match stage {
        StartStage::Transport => "Failed to start: "@ + error,
        StartStage::Initialize => "Failed to initialize: "@ + error,
    }
}

/// The note for a server picked for the chat while it is not running.
pub open spec fn not_running_text(name: Seq<char>) -> Seq<char> {
    "Server "@ + name + " is not running. Start the server first."@
}

/// The action that toggling a server in status `st` asks for.
pub open spec fn toggle_of(st: Option<StatusView>) -> ToggleAction {
    match st {
        Some(StatusView::Running) => ToggleAction::Stop,
        Some(StatusView::Stopped) | None => ToggleAction::Start,
        _ => ToggleAction::Nothing,
    }
}

/// The state of the MCP servers.
pub struct McpState {
    server_status: Vec<(String, ServerStatus)>,
    active: Vec<String>,
    selected_server: Option<ServerConfig>,
}

/// The model of the state: the status of each server, the ids of the servers
/// with a live client (in the order they came up, each once) and the server
/// the chat talks to.
pub struct McpStateView {
    pub statuses: Seq<(Seq<char>, StatusView)>,
    pub active: Seq<Seq<char>>,
    pub selected: Option<ServerConfig>,
}

impl View for McpState {
    type V = McpStateView;

    closed spec fn view(&self) -> McpStateView {
        McpStateView {
            statuses: self.server_status@.map_values(|p: (String, ServerStatus)| (p.0@, p.1@)),
            active: self.active@.map_values(|s: String| s@),
            selected: self.selected_server,
        }
    }
}

/// The well-formed states: every server has one status and is active once
/// at most.
pub open spec fn state_wf(v: McpStateView) -> bool {
    &&& ids_unique(v.statuses)
    &&& v.active.no_duplicates()
}

proof fn lemma_status_in(e: Seq<(Seq<char>, StatusView)>, id: Seq<char>)
    requires
        ids_unique(e),
    ensures
        status_in(e, id) is None <==> forall|i: int| 0 <= i < e.len() ==> e[i].0 != id,
        forall|i: int| 0 <= i < e.len() && e[i].0 == id ==> status_in(e, id) == Some(e[i].1),
    decreases e.len(),
{
    if e.len() > 0 {
        let d = e.drop_last();
        assert(ids_unique(d));
        lemma_status_in(d, id);
        assert forall|i: int| 0 <= i < d.len() implies d[i] == e[i] by {}
    }
}

proof fn lemma_with_status(e: Seq<(Seq<char>, StatusView)>, id: Seq<char>, st: StatusView)
    requires
        ids_unique(e),
    ensures
        ids_unique(with_status(e, id, st)),
        status_in(with_status(e, id, st), id) == Some(st),
        forall|other: Seq<char>| other != id ==> status_in(with_status(e, id, st), other) == status_in(e, other),
{
    let r = with_status(e, id, st);
    if exists|i: int| 0 <= i < e.len() && e[i].0 == id {
        let i = choose|i: int| 0 <= i < e.len() && e[i].0 == id;
        assert(r[i] == (id, st));
        assert(ids_unique(r)) by {
            assert forall|a: int, b: int| 0 <= a < r.len() && 0 <= b < r.len() && r[a].0 == r[b].0 implies a == b by {
                assert(r[a].0 == e[a].0 && r[b].0 == e[b].0);
            }
        }
        lemma_status_in(r, id);
        assert forall|other: Seq<char>| other != id implies status_in(r, other) == status_in(e, other) by {
            lemma_status_in(r, other);
            lemma_status_in(e, other);
            if exists|j: int| 0 <= j < e.len() && e[j].0 == other {
                let j = choose|j: int| 0 <= j < e.len() && e[j].0 == other;
                assert(r[j] == e[j]);
            } else {
                assert forall|j: int| 0 <= j < r.len() implies r[j].0 != other by {
                    if j != i {
                        assert(r[j] == e[j]);
                    }
                }
            }
        }
    } else {
        assert(ids_unique(r)) by {
            assert forall|a: int, b: int| 0 <= a < r.len() && 0 <= b < r.len() && r[a].0 == r[b].0 implies a == b by {
                if a < e.len() && b < e.len() {
                    assert(r[a] == e[a] && r[b] == e[b]);
                } else if a < e.len() {
                    assert(r[a] == e[a]);
                } else if b < e.len() {
                    assert(r[b] == e[b]);
                }
            }
        }
        assert(r[e.len() as int] == (id, st));
        lemma_status_in(r, id);
        assert forall|other: Seq<char>| other != id implies status_in(r, other) == status_in(e, other) by {
            assert(r.drop_last() =~= e);
        }
    }
}

impl McpState {
    #[verifier::type_invariant]
    closed spec fn well_formed(&self) -> bool {
        state_wf(self@)
    }

    /// No server known, none active, none selected.
    pub fn new() -> (r: Self)
        ensures
            r@.statuses == Seq::<(Seq<char>, StatusView)>::empty(),
            r@.active == Seq::<Seq<char>>::empty(),
            r@.selected is None,
    {
        let r = McpState { server_status: Vec::new(), active: Vec::new(), selected_server: None };
        assert(r@.statuses =~= Seq::<(Seq<char>, StatusView)>::empty());
        assert(r@.active =~= Seq::<Seq<char>>::empty());
        r
    }

    fn position_of(&self, id: &str) -> (r: Option<usize>)
        ensures
            match r {
                Some(i) => i < self@.statuses.len() && self@.statuses[i as int].0 == id@,
                None => forall|i: int| 0 <= i < self@.statuses.len() ==> self@.statuses[i].0 != id@,
            },
    {
        let mut i: usize = 0;
        while i < self.server_status.len()
            invariant
                i <= self@.statuses.len(),
                self@.statuses.len() == self.server_status@.len(),
                forall|j: int| 0 <= j < i ==> self@.statuses[j].0 != id@,
            decreases self@.statuses.len() - i,
        {
            if str_eq(self.server_status[i].0.as_str(), id) {
                return Some(i);
            }
            i = i + 1;
        }
        None
    }

    /// The status of the server `id`, if it has one.
    pub fn status_of(&self, id: &str) -> (r: Option<ServerStatus>)
        ensures
            match r {
                Some(st) => status_in(self@.statuses, id@) == Some(st@),
                None => status_in(self@.statuses, id@) is None,
            },
    {
        proof {
            use_type_invariant(self);
            lemma_status_in(self@.statuses, id@);
        }
        match self.position_of(id) {
            Some(i) => Some(self.server_status[i].1.copy()),
            None => None,
        }
    }

    /// What toggling the server `id` asks for: a running server is stopped,
    /// a stopped or unknown one started, and a starting or failed one left
    /// alone.
    pub fn toggle_action(&self, id: &str) -> (r: ToggleAction)
        ensures
            r == toggle_of(status_in(self@.statuses, id@)),
    {
        match self.status_of(id) {
            Some(ServerStatus::Running) => ToggleAction::Stop,
            Some(ServerStatus::Stopped) | None => ToggleAction::Start,
            _ => ToggleAction::Nothing,
        }
    }

    fn set_status(&mut self, id: &str, st: ServerStatus)
        ensures
            final(self)@ == (McpStateView { statuses: with_status(old(self)@.statuses, id@, st@), ..old(self)@ }),
    {
        proof {
            use_type_invariant(&*self);
            lemma_with_status(self@.statuses, id@, st@);
        }
        let ghost e = self@.statuses;
        let ghost stv = st@;
        let ghost idv = id@;
        let found = self.position_of(id);
        let mut statuses: Vec<(String, ServerStatus)> = Vec::new();
        std::mem::swap(&mut statuses, &mut self.server_status);
        assert(e == statuses@.map_values(|p: (String, ServerStatus)| (p.0@, p.1@)));
        match found {
            Some(i) => {
                statuses.set(i, (id.to_owned(), st));
                proof {
                    assert(e[i as int].0 == idv);
                    let k = choose|k: int| 0 <= k < e.len() && e[k].0 == idv;
                    assert(k == i as int);
                    assert(statuses@.map_values(|p: (String, ServerStatus)| (p.0@, p.1@)) =~= e.update(i as int, (idv, stv)));
                }
            },
            None => {
                statuses.push((id.to_owned(), st));
                assert(statuses@.map_values(|p: (String, ServerStatus)| (p.0@, p.1@)) =~= e.push((idv, stv)));
            },
        }
        self.server_status = statuses;
    }

    /// The server `id` is being started.
    pub fn begin_start(&mut self, id: &str)
        ensures
            final(self)@ == (McpStateView {
                statuses: with_status(old(self)@.statuses, id@, StatusView::Starting),
                ..old(self)@
            }),
    {
        self.set_status(id, ServerStatus::Starting);
    }

    /// The server `id` came up: it runs and has a live client.
    pub fn start_succeeded(&mut self, id: &str)
        ensures
            final(self)@.statuses == with_status(old(self)@.statuses, id@, StatusView::Running),
            final(self)@.active == if old(self)@.active.contains(id@) {
                old(self)@.active
            } else {
                old(self)@.active.push(id@)
            },
            final(self)@.selected == old(self)@.selected,
    {
        self.set_status(id, ServerStatus::Running);
        proof {
            use_type_invariant(&*self);
        }
        let ghost mid = self@;
        let mut i: usize = 0;
        while i < self.active.len()
            invariant
                self@ == mid,
                mid.statuses == with_status(old(self)@.statuses, id@, StatusView::Running),
                mid.active == old(self)@.active,
                mid.selected == old(self)@.selected,
                i <= self@.active.len(),
                forall|j: int| 0 <= j < i ==> self@.active[j] != id@,
            decreases self@.active.len() - i,
        {
            if str_eq(self.active[i].as_str(), id) {
                assert(self@.active.contains(id@)) by {
                    assert(self@.active[i as int] == id@);
                }
                return;
            }
            i = i + 1;
        }
        let ghost a = self@.active;
        let mut active: Vec<String> = Vec::new();
        std::mem::swap(&mut active, &mut self.active);
        active.push(id.to_owned());
        proof {
            assert(active@.map_values(|s: String| s@) =~= a.push(id@));
            assert(a.push(id@).no_duplicates()) by {
                assert forall|x: int, y: int| 0 <= x < a.len() + 1 && 0 <= y < a.len() + 1 && x != y implies a.push(id@)[x] != a.push(id@)[y] by {
                    if x < a.len() && y < a.len() {
                    } else if x < a.len() {
                        assert(a[x] != id@);
                    } else {
                        assert(a[y] != id@);
                    }
                }
            }
        }
        self.active = active;
    }

    /// Starting the server `id` failed at `stage` with `error`: the server is
    /// marked as failed with the reason.
    pub fn start_failed(&mut self, id: &str, stage: StartStage, error: &str)
        ensures
            final(self)@ == (McpStateView {
                statuses: with_status(old(self)@.statuses, id@, StatusView::Failed(failure_text(stage, error@))),
                ..old(self)@
            }),
    {
        let text = match stage {
            StartStage::Transport => concat("Failed to start: ", error),
            StartStage::Initialize => concat("Failed to initialize: ", error),
        };
        self.set_status(id, ServerStatus::Failed(text));
    }

    fn drop_active(&mut self, id: &str)
        ensures
            final(self)@ == (McpStateView { active: without_id(old(self)@.active, id@), ..old(self)@ }),
    {
        proof {
            use_type_invariant(&*self);
        }
        let ghost a = self@.active;
        let mut kept: Vec<String> = Vec::new();
        let mut i: usize = 0;
        assert(a.take(0) =~= Seq::<Seq<char>>::empty());
        while i < self.active.len()
            invariant
                a == self@.active,
                a.no_duplicates(),
                i <= a.len(),
                kept@.map_values(|s: String| s@) == without_id(a.take(i as int), id@),
                kept@.map_values(|s: String| s@).no_duplicates(),
                forall|x: Seq<char>| kept@.map_values(|s: String| s@).contains(x) ==> a.take(i as int).contains(x),
            decreases a.len() - i,
        {
            proof {
                assert(a.take(i + 1).drop_last() =~= a.take(i as int));
                assert(a.take(i + 1).last() == a[i as int]);
            }
            let ghost before = kept@.map_values(|s: String| s@);
            if !str_eq(self.active[i].as_str(), id) {
                kept.push(self.active[i].clone());
                proof {
                    let now = kept@.map_values(|s: String| s@);
                    assert(now =~= before.push(a[i as int]));
                    assert(!before.contains(a[i as int])) by {
                        if before.contains(a[i as int]) {
                            let t = a.take(i as int);
                            assert(t.contains(a[i as int]));
                            let k = choose|k: int| 0 <= k < t.len() && t[k] == a[i as int];
                            assert(a[k] == a[i as int]);
                        }
                    }
                    assert forall|x: int, y: int| 0 <= x < now.len() && 0 <= y < now.len() && x != y implies now[x] != now[y] by {
                        if x < before.len() && y < before.len() {
                        } else if x < before.len() {
                            assert(before.contains(now[x]));
                        } else {
                            assert(before.contains(now[y]));
                        }
                    }
                    assert forall|x: Seq<char>| now.contains(x) implies a.take(i + 1).contains(x) by {
                        let k = choose|k: int| 0 <= k < now.len() && now[k] == x;
                        let t = a.take(i as int);
                        if k < before.len() {
                            assert(before[k] == x);
                            assert(t.contains(x));
                            let m = choose|m: int| 0 <= m < t.len() && t[m] == x;
                            assert(a.take(i + 1)[m] == x);
                        } else {
                            assert(a.take(i + 1)[i as int] == x);
                        }
                    }
                }
            } else {
                proof {
                    assert forall|x: Seq<char>| before.contains(x) implies a.take(i + 1).contains(x) by {
                        let t = a.take(i as int);
                        assert(t.contains(x));
                        let m = choose|m: int| 0 <= m < t.len() && t[m] == x;
                        assert(a.take(i + 1)[m] == x);
                    }
                }
            }
            i = i + 1;
        }
        proof {
            assert(a.take(a.len() as int) =~= a);
        }
        self.active = kept;
    }

    /// The server `id` is stopped: it loses its client, and the chat stops
    /// talking to it when it was the selected one.
    pub fn stop(&mut self, id: &str)
        ensures
            final(self)@.statuses == with_status(old(self)@.statuses, id@, StatusView::Stopped),
            final(self)@.active == without_id(old(self)@.active, id@),
            final(self)@.selected == match old(self)@.selected {
                Some(c) => if c.id@ == id@ { None } else { Some(c) },
                None => None,
            },
    {
        self.set_status(id, ServerStatus::Stopped);
        self.drop_active(id);
        let clear = match &self.selected_server {
            Some(c) => str_eq(c.id.as_str(), id),
            None => false,
        };
        if clear {
            proof {
                use_type_invariant(&*self);
            }
            self.selected_server = None;
        }
    }

    /// Every server is shut down: the active ones are stopped and none keeps
    /// a client.  The server picked for the chat stays picked.
    pub fn shutdown(&mut self)
        ensures
            final(self)@.active == Seq::<Seq<char>>::empty(),
            final(self)@.selected == old(self)@.selected,
            forall|id: Seq<char>|
                #![trigger status_in(final(self)@.statuses, id)]
                status_in(final(self)@.statuses, id) == if old(self)@.active.contains(id) {
                    Some(StatusView::Stopped)
                } else {
                    status_in(old(self)@.statuses, id)
                },
    {
        proof {
            use_type_invariant(&*self);
        }
        let ghost s0 = self@.statuses;
        let ghost a0 = self@.active;
        let mut active: Vec<String> = Vec::new();
        std::mem::swap(&mut active, &mut self.active);
        let mut i: usize = 0;
        while i < active.len()
            invariant
                a0 == active@.map_values(|s: String| s@),
                i <= a0.len(),
                ids_unique(self@.statuses),
                self@.active == Seq::<Seq<char>>::empty(),
                self@.selected == old(self)@.selected,
                forall|id: Seq<char>|
                    #![trigger status_in(self@.statuses, id)]
                    status_in(self@.statuses, id) == if a0.take(i as int).contains(id) {
                        Some(StatusView::Stopped)
                    } else {
                        status_in(s0, id)
                    },
            decreases a0.len() - i,
        {
            let ghost before = self@.statuses;
            proof {
                assert(active@[i as int]@ == a0[i as int]);
                lemma_with_status(before, a0[i as int], StatusView::Stopped);
            }
            assert(forall|id: Seq<char>|
                #![trigger status_in(before, id)]
                status_in(before, id) == if a0.take(i as int).contains(id) {
                    Some(StatusView::Stopped)
                } else {
                    status_in(s0, id)
                });
            self.set_status(active[i].as_str(), ServerStatus::Stopped);
            proof {
                assert forall|id: Seq<char>| #![trigger status_in(self@.statuses, id)]
                    status_in(self@.statuses, id) == if a0.take(i + 1).contains(id) {
                        Some(StatusView::Stopped)
                    } else {
                        status_in(s0, id)
                    } by {
                    if id == a0[i as int] {
                        assert(a0.take(i + 1)[i as int] == id);
                    } else {
                        assert(status_in(self@.statuses, id) == status_in(before, id));
                        let t1 = a0.take(i + 1);
                        let t0 = a0.take(i as int);
                        assert(t1.contains(id) == t0.contains(id)) by {
                            if t1.contains(id) {
                                let k = choose|k: int| 0 <= k < t1.len() && t1[k] == id;
                                assert(t0[k] == id);
                            }
                            if t0.contains(id) {
                                let k = choose|k: int| 0 <= k < t0.len() && t0[k] == id;
                                assert(t1[k] == id);
                            }
                        }
                    }
                }
            }
            i = i + 1;
        }
        proof {
            assert(a0.take(a0.len() as int) =~= a0);
        }
    }

    /// The user picks `server` for the chat.  While no server has a live
    /// client the choice is simply recorded; a server with a live client is
    /// chosen (the caller then talks to its client); a server without one,
    /// while others have one, is refused with a note to start it first, and
    /// the state stays as it was.
    pub fn select(&mut self, server: ServerConfig) -> (r: Result<(), String>)
        ensures
            old(self)@.active.len() == 0 || old(self)@.active.contains(server.id@) ==> {
                &&& r is Ok
                &&& final(self)@ == (McpStateView { selected: Some(server), ..old(self)@ })
            },
            old(self)@.active.len() > 0 && !old(self)@.active.contains(server.id@) ==> {
                &&& r matches Err(e) && e@ == not_running_text(server.name@)
                &&& final(self)@ == old(self)@
            },
    {
        proof {
            use_type_invariant(&*self);
        }
        if self.active.len() > 0 && !self.is_active(server.id.as_str()) {
            let note = concat(concat("Server ", server.name.as_str()).as_str(), " is not running. Start the server first.");
            return Err(note);
        }
        self.selected_server = Some(server);
        Ok(())
    }

    /// The server the chat talks to, if any.
    pub fn selected_server(&self) -> (r: Option<&ServerConfig>)
        ensures
            match r {
                Some(c) => self@.selected == Some(*c),
                None => self@.selected is None,
            },
    {
        match &self.selected_server {
            Some(c) => Some(c),
            None => None,
        }
    }

    /// The ids of the servers with a live client, in the order they came up.
    pub fn active_servers(&self) -> (r: &[String])
        ensures
            r@.map_values(|s: String| s@) == self@.active,
    {
        self.active.as_slice()
    }
}

impl Default for McpState {
    /// No server known, none active, none selected.
    fn default() -> (r: Self)
        ensures
            r@.statuses == Seq::<(Seq<char>, StatusView)>::empty(),
            r@.active == Seq::<Seq<char>>::empty(),
            r@.selected is None,
    {
        McpState::new()
    }
}

/// The server to talk to once `servers` have been started: the last default
/// server that came up, else the first server that came up.
pub open spec fn startup_choice(servers: Seq<ServerConfig>, active: Seq<Seq<char>>) -> Option<int> {
    if exists|i: int| 0 <= i < servers.len() && servers[i].is_default && active.contains(servers[i].id@) {
        Some(
            choose|i: int|
                0 <= i < servers.len() && servers[i].is_default && active.contains(servers[i].id@) && forall|j: int|
                    i < j < servers.len() ==> !(servers[j].is_default && active.contains(servers[j].id@)),
        )
    } else if exists|i: int| 0 <= i < servers.len() && active.contains(servers[i].id@) {
        Some(
            choose|i: int|
                0 <= i < servers.len() && active.contains(servers[i].id@) && forall|j: int|
                    0 <= j < i ==> !active.contains(servers[j].id@),
        )
    } else {
        None
    }
}

impl McpState {
    fn is_active(&self, id: &str) -> (r: bool)
        ensures
            r == self@.active.contains(id@),
    {
        let mut i: usize = 0;
        while i < self.active.len()
            invariant
                i <= self@.active.len(),
                forall|j: int| 0 <= j < i ==> self@.active[j] != id@,
            decreases self@.active.len() - i,
        {
            if str_eq(self.active[i].as_str(), id) {
                assert(self@.active[i as int] == id@);
                return true;
            }
            i = i + 1;
        }
        false
    }

    /// Which of `servers`, just started, the chat talks to (see
    /// [`startup_choice`]).
    pub fn startup_selection(&self, servers: &[ServerConfig]) -> (r: Option<usize>)
        ensures
            match r {
                Some(i) => startup_choice(servers@, self@.active) == Some(i as int),
                None => startup_choice(servers@, self@.active) is None,
            },
    {
        let ghost s = servers@;
        let ghost a = self@.active;
        let mut k: usize = servers.len();
        while k > 0
            invariant
                k <= s.len(),
                s == servers@,
                a == self@.active,
                forall|j: int| k <= j < s.len() ==> !(s[j].is_default && a.contains(s[j].id@)),
            decreases k,
        {
            let i = k - 1;
            if servers[i].is_default && self.is_active(servers[i].id.as_str()) {
                proof {
                    let c = choose|x: int|
                        0 <= x < s.len() && s[x].is_default && a.contains(s[x].id@) && forall|j: int|
                            x < j < s.len() ==> !(s[j].is_default && a.contains(s[j].id@));
                    assert(c == i) by {
                        if c < i {
                            assert(!(s[i as int].is_default && a.contains(s[i as int].id@)));
                        } else if c > i {
                            assert(!(s[c].is_default && a.contains(s[c].id@)));
                        }
                    }
                }
                return Some(i);
            }
            k = i;
        }
        let mut i: usize = 0;
        while i < servers.len()
            invariant
                i <= s.len(),
                s == servers@,
                a == self@.active,
                forall|j: int| 0 <= j < s.len() ==> !(s[j].is_default && a.contains(s[j].id@)),
                forall|j: int| 0 <= j < i ==> !a.contains(s[j].id@),
            decreases s.len() - i,
        {
            if self.is_active(servers[i].id.as_str()) {
                proof {
                    let c = choose|x: int|
                        0 <= x < s.len() && a.contains(s[x].id@) && forall|j: int|
                            0 <= j < x ==> !a.contains(s[j].id@);
                    assert(c == i) by {
                        if c < i {
                            assert(!a.contains(s[c].id@));
                        } else if c > i {
                            assert(!a.contains(s[i as int].id@));
                        }
                    }
                }
                return Some(i);
            }
            i = i + 1;
        }
        None
    }
}

} // verus!
