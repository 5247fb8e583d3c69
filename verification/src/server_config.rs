//! Configuration of the MCP servers the application can start.

use std::collections::HashMap;
use vstd::prelude::*;

use crate::identity::{is_v4_uuid_text, new_uuid_string};
use crate::text::str_eq;

verus! {

/// Configuration for an MCP server.
#[derive(Debug, Clone, PartialEq)]
pub struct ServerConfig {
    pub id: String,
    pub name: String,
    pub command: String,
    pub args: Vec<String>,
    pub env: HashMap<String, String>,
    pub description: Option<String>,
    pub is_default: bool,
}

/// Collection of server configurations.
#[derive(Debug, Clone, PartialEq)]
pub struct ServerConfigs {
    pub servers: Vec<ServerConfig>,
}

/// `c` with its default flag set to `flag`, every other field unchanged.
pub open spec fn with_default_flag(c: ServerConfig, flag: bool) -> ServerConfig {
    ServerConfig { is_default: flag, ..c }
}

/// `i` is the first position of `s` whose id is `id`.
pub open spec fn is_first_with_id(s: Seq<ServerConfig>, id: Seq<char>, i: int) -> bool {
    &&& 0 <= i < s.len()
    &&& s[i].id@ == id
    &&& forall|j: int| 0 <= j < i ==> s[j].id@ != id
}

/// Some server of `s` has the id `id`.
pub open spec fn has_id(s: Seq<ServerConfig>, id: Seq<char>) -> bool {
    exists|i: int| 0 <= i < s.len() && s[i].id@ == id
}

/// `i` is the first position of `s` marked as default.
pub open spec fn is_first_default(s: Seq<ServerConfig>, i: int) -> bool {
    &&& 0 <= i < s.len()
    &&& s[i].is_default
    &&& forall|j: int| 0 <= j < i ==> !s[j].is_default
}

/// Some server of `s` is marked as default.
pub open spec fn has_default(s: Seq<ServerConfig>) -> bool {
    exists|i: int| 0 <= i < s.len() && s[i].is_default
}

/// At most one server of `s` is marked as default.
pub open spec fn at_most_one_default(s: Seq<ServerConfig>) -> bool {
    forall|i: int, j: int|
        0 <= i < s.len() && 0 <= j < s.len() && s[i].is_default && s[j].is_default ==> i == j
}

/// No two servers of `s` share an id.
pub open spec fn unique_ids(s: Seq<ServerConfig>) -> bool {
    forall|i: int, j: int| 0 <= i < s.len() && 0 <= j < s.len() && s[i].id@ == s[j].id@ ==> i == j
}

/// The servers after `add_server(server)` on `s`.
pub open spec fn added(s: Seq<ServerConfig>, server: ServerConfig) -> Seq<ServerConfig> {
    let cleared = if server.is_default {
        s.map_values(|c: ServerConfig| with_default_flag(c, false))
    } else {
        s
    };
    let new_server = if s.len() == 0 { with_default_flag(server, true) } else { server };
    cleared.push(new_server)
}

/// The servers of `s` after the defaults other than those with id `id` are cleared,
/// as `update_server` does first for a default server.
pub open spec fn others_cleared(s: Seq<ServerConfig>, id: Seq<char>) -> Seq<ServerConfig> {
    s.map_values(|c: ServerConfig| if c.id@ != id { with_default_flag(c, false) } else { c })
}

/// The servers after `update_server(server)` on `s`.
pub open spec fn updated(s: Seq<ServerConfig>, server: ServerConfig) -> Seq<ServerConfig> {
    let mid = if server.is_default { others_cleared(s, server.id@) } else { s };
    if has_id(s, server.id@) {
        let i = choose|i: int| is_first_with_id(s, server.id@, i);
        mid.update(i, server)
    } else {
        mid
    }
}

/// Whether `remove_server(id)` on `s` removes a server: the first server with
/// that id exists and is not the default one.
pub open spec fn removable(s: Seq<ServerConfig>, id: Seq<char>) -> bool {
    exists|i: int| is_first_with_id(s, id, i) && !s[i].is_default
}

/// The servers after `remove_server(id)` on `s`.
pub open spec fn removed(s: Seq<ServerConfig>, id: Seq<char>) -> Seq<ServerConfig> {
    if removable(s, id) {
        let i = choose|i: int| is_first_with_id(s, id, i);
        s.remove(i)
    } else {
        s
    }
}

/// The servers after `ensure_default_exists` on `s`.
pub open spec fn with_default_ensured(s: Seq<ServerConfig>) -> Seq<ServerConfig> {
    if s.len() == 0 || has_default(s) {
        s
    } else {
        s.update(0, with_default_flag(s[0], true))
    }
}

proof fn lemma_first_with_id_exists(s: Seq<ServerConfig>, id: Seq<char>, w: int)
    requires
        0 <= w < s.len(),
        s[w].id@ == id,
    ensures
        exists|i: int| is_first_with_id(s, id, i),
    decreases w,
{
    if exists|j: int| 0 <= j < w && s[j].id@ == id {
        let j = choose|j: int| 0 <= j < w && s[j].id@ == id;
        lemma_first_with_id_exists(s, id, j);
    } else {
        assert(is_first_with_id(s, id, w));
    }
}

proof fn lemma_first_with_id_unique(s: Seq<ServerConfig>, id: Seq<char>, i: int, k: int)
    requires
        is_first_with_id(s, id, i),
        is_first_with_id(s, id, k),
    ensures
        i == k,
{
}

/// `c` is the default filesystem server configuration: the `filesystem`
/// server run from its docker image with a desktop and a projects folder
/// mounted, marked as default.
pub open spec fn is_default_filesystem(c: ServerConfig) -> bool {
    &&& c.id@ == "filesystem"@
    &&& c.name@ == "Filesystem MCP"@
    &&& c.command@ == "docker"@
    &&& c.args@.len() == 10
    &&& c.args@[0]@ == "run"@
    &&& c.args@[1]@ == "-i"@
    &&& c.args@[2]@ == "--rm"@
    &&& c.args@[3]@ == "--mount"@
    &&& c.args@[4]@ == "type=bind,src=/Users/martinmaurer/Desktop,dst=/Users/martinmaurer/Desktop"@
    &&& c.args@[5]@ == "--mount"@
    &&& c.args@[6]@ == "type=bind,src=/Users/martinmaurer/Projects,dst=/Users/martinmaurer/Projects"@
    &&& c.args@[7]@ == "mcp/filesystem"@
    &&& c.args@[8]@ == "/Users/martinmaurer/Desktop"@
    &&& c.args@[9]@ == "/Users/martinmaurer/Projects"@
    &&& c.env@ == Map::<String, String>::empty()
    &&& c.description matches Some(d) && d@ == "Default filesystem MCP provider"@
    &&& c.is_default
}

impl ServerConfig {
    /// A new server configuration with a fresh random id.
    pub fn new(
        name: String,
        command: String,
        args: Vec<String>,
        env: HashMap<String, String>,
        description: Option<String>,
        is_default: bool,
    ) -> (c: Self)
        ensures
            is_v4_uuid_text(c.id@),
            c.name == name,
            c.command == command,
            c.args == args,
            c.env == env,
            c.description == description,
            c.is_default == is_default,
    {
        ServerConfig { id: new_uuid_string(), name, command, args, env, description, is_default }
    }

    /// The default filesystem server configuration.
    pub fn default_filesystem() -> (c: Self)
        ensures
            is_default_filesystem(c),
    {
        let env: HashMap<String, String> = HashMap::new();
        let mut args: Vec<String> = Vec::new();
        args.push("run".to_owned());
        args.push("-i".to_owned());
        args.push("--rm".to_owned());
        args.push("--mount".to_owned());
        args.push("type=bind,src=/Users/martinmaurer/Desktop,dst=/Users/martinmaurer/Desktop".to_owned());
        args.push("--mount".to_owned());
        args.push("type=bind,src=/Users/martinmaurer/Projects,dst=/Users/martinmaurer/Projects".to_owned());
        args.push("mcp/filesystem".to_owned());
        args.push("/Users/martinmaurer/Desktop".to_owned());
        args.push("/Users/martinmaurer/Projects".to_owned());
        ServerConfig {
            id: "filesystem".to_owned(),
            name: "Filesystem MCP".to_owned(),
            command: "docker".to_owned(),
            args,
            env,
            description: Some("Default filesystem MCP provider".to_owned()),
            is_default: true,
        }
    }
}

/// Adding a server keeps at most one server marked as default.
pub proof fn lemma_add_keeps_single_default(s: Seq<ServerConfig>, server: ServerConfig)
    requires
        at_most_one_default(s),
    ensures
        at_most_one_default(added(s, server)),
{
    let r = added(s, server);
    assert forall|i: int, j: int|
        0 <= i < r.len() && 0 <= j < r.len() && r[i].is_default && r[j].is_default implies i == j by {
        if server.is_default {
            assert(i == s.len() && j == s.len());
        }
    }
}

/// Updating a server keeps at most one server marked as default, when ids are unique.
pub proof fn lemma_update_keeps_single_default(s: Seq<ServerConfig>, server: ServerConfig)
    requires
        at_most_one_default(s),
        unique_ids(s),
    ensures
        at_most_one_default(updated(s, server)),
{
    let r = updated(s, server);
    let mid = if server.is_default { others_cleared(s, server.id@) } else { s };
    assert(mid.len() == s.len());
    assert forall|i: int| 0 <= i < mid.len() && mid[i].is_default implies s[i].is_default && (
    server.is_default ==> s[i].id@ == server.id@) by {}
    if has_id(s, server.id@) {
        let w = choose|w: int| 0 <= w < s.len() && s[w].id@ == server.id@;
        lemma_first_with_id_exists(s, server.id@, w);
        let k = choose|k: int| is_first_with_id(s, server.id@, k);
        assert(r == mid.update(k, server));
        assert forall|i: int, j: int|
            0 <= i < r.len() && 0 <= j < r.len() && r[i].is_default && r[j].is_default implies i == j by {
            if i != k {
                assert(r[i] == mid[i]);
            }
            if j != k {
                assert(r[j] == mid[j]);
            }
            if server.is_default {
                if i != k {
                    assert(s[i].id@ == s[k].id@);
                }
                if j != k {
                    assert(s[j].id@ == s[k].id@);
                }
            }
        }
    } else {
        assert(r == mid);
        assert forall|i: int, j: int|
            0 <= i < r.len() && 0 <= j < r.len() && r[i].is_default && r[j].is_default implies i == j by {
            if server.is_default {
                assert(s[i].id@ == server.id@);
                assert(has_id(s, server.id@));
            }
        }
    }
}

/// Removing a server keeps at most one server marked as default.
pub proof fn lemma_remove_keeps_single_default(s: Seq<ServerConfig>, id: Seq<char>)
    requires
        at_most_one_default(s),
    ensures
        at_most_one_default(removed(s, id)),
{
    if removable(s, id) {
        let k = choose|k: int| is_first_with_id(s, id, k);
        let r = s.remove(k);
        assert forall|i: int, j: int|
            0 <= i < r.len() && 0 <= j < r.len() && r[i].is_default && r[j].is_default implies i == j by {
            let si = if i < k { i } else { i + 1 };
            let sj = if j < k { j } else { j + 1 };
            assert(r[i] == s[si] && r[j] == s[sj]);
        }
    }
}

/// After `ensure_default_exists`, a non-empty collection has exactly one
/// default server when it had at most one before.
pub proof fn lemma_ensure_default(s: Seq<ServerConfig>)
    requires
        at_most_one_default(s),
    ensures
        s.len() > 0 ==> has_default(with_default_ensured(s)),
        at_most_one_default(with_default_ensured(s)),
        with_default_ensured(s).len() == s.len(),
{
    let r = with_default_ensured(s);
    if s.len() > 0 {
        if !has_default(s) {
            assert(r[0].is_default);
            assert forall|i: int, j: int|
                0 <= i < r.len() && 0 <= j < r.len() && r[i].is_default && r[j].is_default implies i == j by {
                if i != 0 {
                    assert(s[i].is_default);
                }
                if j != 0 {
                    assert(s[j].is_default);
                }
            }
        }
    }
}

/// Deleting a server through the server list keeps exactly one default
/// among the servers left, if any are left.
pub proof fn lemma_delete_keeps_one_default(s: Seq<ServerConfig>, id: Seq<char>)
    requires
        at_most_one_default(s),
        removable(s, id),
    ensures
        removed(s, id).len() > 0 ==> has_default(with_default_ensured(removed(s, id))),
        at_most_one_default(with_default_ensured(removed(s, id))),
{
    lemma_remove_keeps_single_default(s, id);
    lemma_ensure_default(removed(s, id));
}

/// The default server can never be removed: when ids are unique, removing the
/// id of a default server removes nothing.
pub proof fn lemma_default_not_removable(s: Seq<ServerConfig>, i: int)
    requires
        unique_ids(s),
        0 <= i < s.len(),
        s[i].is_default,
    ensures
        !removable(s, s[i].id@),
        removed(s, s[i].id@) == s,
{
    assert forall|k: int| is_first_with_id(s, s[i].id@, k) implies s[k].is_default by {
        assert(k == i);
    }
}

/// A non-default server with a fresh id, added to a non-empty collection, is
/// found by its id and removed again by it, which gives back the collection.
pub proof fn lemma_add_then_remove(s: Seq<ServerConfig>, server: ServerConfig)
    requires
        !server.is_default,
        s.len() > 0,
        !has_id(s, server.id@),
    ensures
        is_first_with_id(added(s, server), server.id@, s.len() as int),
        removable(added(s, server), server.id@),
        removed(added(s, server), server.id@) == s,
{
    let a = added(s, server);
    assert(a == s.push(server));
    assert(is_first_with_id(a, server.id@, s.len() as int));
    let k = choose|k: int| is_first_with_id(a, server.id@, k);
    lemma_first_with_id_unique(a, server.id@, k, s.len() as int);
    assert(a.remove(s.len() as int) =~= s);
}

/// A server with a fresh id is the one found by its id after it is added.
pub proof fn lemma_add_then_get(s: Seq<ServerConfig>, server: ServerConfig)
    requires
        !has_id(s, server.id@),
    ensures
        is_first_with_id(added(s, server), server.id@, s.len() as int),
        added(s, server)[s.len() as int].name == server.name,
        added(s, server)[s.len() as int].args == server.args,
{
}

impl Default for ServerConfigs {
    /// An empty collection.
    fn default() -> (r: Self)
        ensures
            r.servers@.len() == 0,
    {
        ServerConfigs { servers: Vec::new() }
    }
}

impl ServerConfigs {
    /// The collection holding only the default filesystem server.
    pub fn initialize_default() -> (r: Self)
        ensures
            r.servers@.len() == 1,
            is_default_filesystem(r.servers@[0]),
    {
        let mut servers = Vec::new();
        servers.push(ServerConfig::default_filesystem());
        ServerConfigs { servers }
    }

    /// The first server configuration whose id is `id`.
    pub fn get_by_id(&self, id: &str) -> (r: Option<&ServerConfig>)
        ensures
            r is None <==> !has_id(self.servers@, id@),
            r matches Some(c) ==> exists|i: int|
                is_first_with_id(self.servers@, id@, i) && self.servers@[i] == *c,
    {
        let mut i: usize = 0;
        while i < self.servers.len()
            invariant
                i <= self.servers@.len(),
                forall|j: int| 0 <= j < i ==> self.servers@[j].id@ != id@,
            decreases self.servers@.len() - i,
        {
            if str_eq(self.servers[i].id.as_str(), id) {
                return Some(&self.servers[i]);
            }
            i = i + 1;
        }
        None
    }

    /// The first server configuration marked as default.
    pub fn get_default(&self) -> (r: Option<&ServerConfig>)
        ensures
            r is None <==> !has_default(self.servers@),
            r matches Some(c) ==> exists|i: int|
                is_first_default(self.servers@, i) && self.servers@[i] == *c,
    {
        let mut i: usize = 0;
        while i < self.servers.len()
            invariant
                i <= self.servers@.len(),
                forall|j: int| 0 <= j < i ==> !self.servers@[j].is_default,
            decreases self.servers@.len() - i,
        {
            if self.servers[i].is_default {
                return Some(&self.servers[i]);
            }
            i = i + 1;
        }
        None
    }

    /// Adds a server configuration.  A default server takes the default flag
    /// from all others; the first server of an empty collection becomes default.
    pub fn add_server(&mut self, server: ServerConfig)
        ensures
            final(self).servers@ == added(old(self).servers@, server),
    {
        let mut server = server;
        let ghost s0 = self.servers@;
        if server.is_default {
            let mut i: usize = 0;
            while i < self.servers.len()
                invariant
                    i <= self.servers@.len(),
                    self.servers@.len() == s0.len(),
                    forall|j: int| 0 <= j < i ==> self.servers@[j] == with_default_flag(s0[j], false),
                    forall|j: int| i <= j < s0.len() ==> self.servers@[j] == s0[j],
                decreases self.servers@.len() - i,
            {
                self.servers[i].is_default = false;
                i = i + 1;
            }
            assert(self.servers@ =~= s0.map_values(|c: ServerConfig| with_default_flag(c, false)));
        }
        if self.servers.len() == 0 {
            server.is_default = true;
        }
        self.servers.push(server);
    }

    /// Position of the first server whose id is `id`.
    fn position_of_id(&self, id: &str) -> (r: Option<usize>)
        ensures
            r is None <==> !has_id(self.servers@, id@),
            r matches Some(i) ==> is_first_with_id(self.servers@, id@, i as int),
    {
        let mut i: usize = 0;
        while i < self.servers.len()
            invariant
                i <= self.servers@.len(),
                forall|j: int| 0 <= j < i ==> self.servers@[j].id@ != id@,
            decreases self.servers@.len() - i,
        {
            if str_eq(self.servers[i].id.as_str(), id) {
                return Some(i);
            }
            i = i + 1;
        }
        None
    }

    /// Replaces the first configuration with the id of `server` by `server`.
    /// A default `server` first takes the default flag from every server with
    /// another id.  Nothing is replaced when no server has that id.
    pub fn update_server(&mut self, server: ServerConfig)
        ensures
            final(self).servers@ == updated(old(self).servers@, server),
    {
        let ghost s0 = self.servers@;
        if server.is_default {
            let mut i: usize = 0;
            while i < self.servers.len()
                invariant
                    i <= self.servers@.len(),
                    self.servers@.len() == s0.len(),
                    forall|j: int| 0 <= j < i ==> self.servers@[j] == (if s0[j].id@ != server.id@ {
                        with_default_flag(s0[j], false)
                    } else {
                        s0[j]
                    }),
                    forall|j: int| i <= j < s0.len() ==> self.servers@[j] == s0[j],
                decreases self.servers@.len() - i,
            {
                if !str_eq(self.servers[i].id.as_str(), server.id.as_str()) {
                    self.servers[i].is_default = false;
                }
                i = i + 1;
            }
            assert(self.servers@ =~= others_cleared(s0, server.id@));
        }
        let ghost mid = self.servers@;
        assert(forall|j: int| 0 <= j < s0.len() ==> mid[j].id@ == s0[j].id@);
        match self.position_of_id(server.id.as_str()) {
            Some(index) => {
                proof {
                    assert(is_first_with_id(s0, server.id@, index as int));
                    let k = choose|k: int| is_first_with_id(s0, server.id@, k);
                    lemma_first_with_id_unique(s0, server.id@, index as int, k);
                }
                self.servers.set(index, server);
            },
            None => {
                assert(!has_id(s0, server.id@)) by {
                    if has_id(s0, server.id@) {
                        let k = choose|k: int| 0 <= k < s0.len() && s0[k].id@ == server.id@;
                        assert(mid[k].id@ == server.id@);
                    }
                }
            },
        }
    }

    /// Removes the first configuration whose id is `id`, unless there is none
    /// or it is the default server.  Returns whether a configuration was removed.
    pub fn remove_server(&mut self, id: &str) -> (r: bool)
        ensures
            r == removable(old(self).servers@, id@),
            final(self).servers@ == removed(old(self).servers@, id@),
    {
        let ghost s0 = self.servers@;
        match self.position_of_id(id) {
            None => {
                false
            },
            Some(index) => {
                proof {
                    let k = choose|k: int| is_first_with_id(s0, id@, k);
                    if removable(s0, id@) {
                        let k2 = choose|k2: int| is_first_with_id(s0, id@, k2) && !s0[k2].is_default;
                        lemma_first_with_id_unique(s0, id@, index as int, k2);
                    }
                    lemma_first_with_id_unique(s0, id@, index as int, k);
                }
                if self.servers[index].is_default {
                    false
                } else {
                    self.servers.remove(index);
                    true
                }
            },
        }
    }

    /// Marks the first server as default when none is.
    pub fn ensure_default_exists(&mut self)
        ensures
            final(self).servers@ == with_default_ensured(old(self).servers@),
    {
        if self.servers.len() == 0 {
            return;
        }
        let mut i: usize = 0;
        let mut found = false;
        while i < self.servers.len()
            invariant
                i <= self.servers@.len(),
                found <==> exists|j: int| 0 <= j < i && self.servers@[j].is_default,
            decreases self.servers@.len() - i,
        {
            if self.servers[i].is_default {
                found = true;
            }
            i = i + 1;
        }
        if !found {
            self.servers[0].is_default = true;
        }
    }

    /// Deletes the server `id` as the server list does: when the server can
    /// be removed (see [`Self::remove_server`]) it goes, and a default is
    /// ensured among the rest.
    pub fn delete_server(&mut self, id: &str) -> (r: bool)
        ensures
            r == removable(old(self).servers@, id@),
            final(self).servers@ == if r {
                with_default_ensured(removed(old(self).servers@, id@))
            } else {
                old(self).servers@
            },
    {
        let r = self.remove_server(id);
        if r {
            self.ensure_default_exists();
        }
        r
    }

    /// Stores the server of the server dialog: an edited server replaces the
    /// one with its id, a new one is added.
    pub fn save_from_dialog(&mut self, server: ServerConfig, is_editing: bool)
        ensures
            final(self).servers@ == if is_editing {
                updated(old(self).servers@, server)
            } else {
                added(old(self).servers@, server)
            },
    {
        if is_editing {
            self.update_server(server);
        } else {
            self.add_server(server);
        }
    }
}

} // verus!
