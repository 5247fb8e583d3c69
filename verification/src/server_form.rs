//! The dialog that adds or edits a server configuration: its fields, and the
//! configuration they make.

use std::collections::HashMap;
use vstd::prelude::*;
use vstd::std_specs::hash::obeys_key_model;

use crate::server_config::ServerConfig;
use crate::text::{join, push_text, split_words, words};
use crate::validation_pipeline::texts;

verus! {

/// The fields of the server dialog.  The arguments are one text, split at
/// white space; the environment is a list of rows, each a name and a value.
#[derive(Debug, Clone, PartialEq)]
pub struct ServerForm {
    pub id: String,
    pub name: String,
    pub command: String,
    pub args: String,
    pub description: String,
    pub is_default: bool,
    pub env_keys: Vec<String>,
    pub env_values: Vec<String>,
}

/// The environment the first `n` rows make: every row with a name and a
/// value sets that name, later rows overriding earlier ones.
pub open spec fn env_of(keys: Seq<String>, values: Seq<String>, n: nat) -> Map<String, String>
    decreases n,
{
    if n == 0 || n > keys.len() {
        Map::empty()
    } else {
        let prev = env_of(keys, values, (n - 1) as nat);
        let k = keys[n - 1];
        if k@.len() > 0 && n - 1 < values.len() {
            prev.insert(k, values[n - 1])
        } else {
            prev
        }
    }
}

impl ServerForm {
    /// The empty form for a new server, with `docker` as its command.
    pub fn new() -> (r: Self)
        ensures
            r.id@.len() == 0,
            r.name@.len() == 0,
            r.command@ == "docker"@,
            r.args@.len() == 0,
            r.description@.len() == 0,
            !r.is_default,
            r.env_keys@.len() == 0,
            r.env_values@.len() == 0,
    {
        ServerForm {
            id: String::new(),
            name: String::new(),
            command: "docker".to_owned(),
            args: String::new(),
            description: String::new(),
            is_default: false,
            env_keys: Vec::new(),
            env_values: Vec::new(),
        }
    }

    /// The form for editing `server`, with the environment rows `env_rows`
    /// (the server's environment, in the order the caller lists it): its
    /// arguments joined by spaces, its description or the empty text.
    pub fn for_server(server: &ServerConfig, env_rows: Vec<(String, String)>) -> (r: Self)
        ensures
            r.id@ == server.id@,
            r.name@ == server.name@,
            r.command@ == server.command@,
            r.args@ == join(texts(server.args@), " "@),
            r.description@ == match server.description {
                Some(d) => d@,
                None => Seq::empty(),
            },
            r.is_default == server.is_default,
            r.env_keys@ == env_rows@.map_values(|p: (String, String)| p.0),
            r.env_values@ == env_rows@.map_values(|p: (String, String)| p.1),
    {
        let ghost t = texts(server.args@);
        let mut args = String::new();
        let mut i: usize = 0;
        while i < server.args.len()
            invariant
                i <= server.args@.len(),
                t == texts(server.args@),
                args@ == join(t.take(i as int), " "@),
            decreases server.args@.len() - i,
        {
            proof {
                assert(t.take(i + 1).drop_last() =~= t.take(i as int));
            }
            if i > 0 {
                push_text(&mut args, " ");
            } else {
                assert(t.take(1) =~= seq![t[0]]);
                assert(args@ + server.args@[0]@ =~= server.args@[0]@);
            }
            push_text(&mut args, server.args[i].as_str());
            i = i + 1;
        }
        assert(t.take(server.args@.len() as int) =~= t);
        let description = match &server.description {
            Some(d) => d.clone(),
            None => String::new(),
        };
        let mut env_keys: Vec<String> = Vec::new();
        let mut env_values: Vec<String> = Vec::new();
        let mut k: usize = 0;
        while k < env_rows.len()
            invariant
                k <= env_rows@.len(),
                env_keys@ == env_rows@.take(k as int).map_values(|p: (String, String)| p.0),
                env_values@ == env_rows@.take(k as int).map_values(|p: (String, String)| p.1),
            decreases env_rows@.len() - k,
        {
            env_keys.push(env_rows[k].0.clone());
            env_values.push(env_rows[k].1.clone());
            assert(env_rows@.take(k + 1) =~= env_rows@.take(k as int).push(env_rows@[k as int]));
            k = k + 1;
        }
        assert(env_rows@.take(env_rows@.len() as int) =~= env_rows@);
        ServerForm {
            id: server.id.clone(),
            name: server.name.clone(),
            command: server.command.clone(),
            args,
            description,
            is_default: server.is_default,
            env_keys,
            env_values,
        }
    }

    /// Adds an empty environment row.
    pub fn add_env_row(&mut self)
        ensures
            final(self).env_keys@.drop_last() == old(self).env_keys@,
            final(self).env_values@.drop_last() == old(self).env_values@,
            final(self).env_keys@.len() == old(self).env_keys@.len() + 1,
            final(self).env_values@.len() == old(self).env_values@.len() + 1,
            final(self).env_keys@.last()@.len() == 0,
            final(self).env_values@.last()@.len() == 0,
            final(self).id == old(self).id,
            final(self).name == old(self).name,
            final(self).command == old(self).command,
            final(self).args == old(self).args,
            final(self).description == old(self).description,
            final(self).is_default == old(self).is_default,
    {
        self.env_keys.push(String::new());
        self.env_values.push(String::new());
        assert(self.env_keys@.drop_last() =~= old(self).env_keys@);
        assert(self.env_values@.drop_last() =~= old(self).env_values@);
    }

    /// Removes the environment row at `index`, when there is one.
    pub fn remove_env_row(&mut self, index: usize)
        requires
            old(self).env_keys@.len() == old(self).env_values@.len(),
        ensures
            index < old(self).env_keys@.len() ==> final(self).env_keys@ == old(self).env_keys@.remove(index as int)
                && final(self).env_values@ == old(self).env_values@.remove(index as int),
            index >= old(self).env_keys@.len() ==> *final(self) == *old(self),
            final(self).id == old(self).id,
            final(self).name == old(self).name,
            final(self).command == old(self).command,
            final(self).args == old(self).args,
            final(self).description == old(self).description,
            final(self).is_default == old(self).is_default,
    {
        if index < self.env_keys.len() {
            self.env_keys.remove(index);
            self.env_values.remove(index);
        }
    }

    /// The configuration the form makes: the arguments are the words of the
    /// argument text, an empty description is none, and every environment
    /// row with a name sets that name (see [`env_of`]).  The environment is
    /// a `HashMap` keyed by strings; what it holds is stated under the
    /// hash map model of `vstd` for string keys.
    pub fn to_config(&self) -> (r: ServerConfig)
        ensures
            r.id@ == self.id@,
            r.name@ == self.name@,
            r.command@ == self.command@,
            r.args@.map_values(|a: String| a@) == words(self.args@),
            r.description == if self.description@.len() == 0 {
                None::<String>
            } else {
                Some(self.description)
            },
            r.is_default == self.is_default,
            obeys_key_model::<String>() ==> r.env@ == env_of(
                self.env_keys@,
                self.env_values@,
                self.env_keys@.len(),
            ),
    {
        broadcast use vstd::std_specs::hash::group_hash_axioms;
        let mut env: HashMap<String, String> = HashMap::new();
        let mut i: usize = 0;
        while i < self.env_keys.len()
            invariant
                i <= self.env_keys@.len(),
                obeys_key_model::<String>() ==> env@ == env_of(self.env_keys@, self.env_values@, i as nat),
            decreases self.env_keys@.len() - i,
        {
            if !self.env_keys[i].as_str().is_empty() && i < self.env_values.len() {
                env.insert(self.env_keys[i].clone(), self.env_values[i].clone());
            }
            i = i + 1;
        }
        let description = if self.description.as_str().is_empty() {
            None
        } else {
            Some(self.description.clone())
        };
        ServerConfig {
            id: self.id.clone(),
            name: self.name.clone(),
            command: self.command.clone(),
            args: split_words(self.args.as_str()),
            env,
            description,
            is_default: self.is_default,
        }
    }
}

} // verus!
