//! Commands, the error taxonomy of loading, and the validated registry.
use crate::order::{insert_sorted, is_prefix, starts_with, str_equal, strictly_sorted, views};
use std::collections::HashMap;
use vstd::prelude::*;
use vstd::string::StringExecFns;

verus! {

/// A described external action.
#[derive(Debug, Clone)]
pub struct Command {
    pub name: String,
    pub description: String,
    pub executable: String,
    pub args: Vec<String>,
    pub working_dir: Option<String>,
    pub env_vars: Option<HashMap<String, String>>,
    pub aliases: Option<Vec<String>>,
    pub category: Option<String>,
}

/// The load-time payload: a version tag and the commands in order.
#[derive(Debug, Clone)]
pub struct CommandConfig {
    pub version: String,
    pub commands: Vec<Command>,
}

/// Why a configuration could not be loaded.
#[derive(Debug)]
pub enum ConfigError {
    /// The source does not exist.
    FileNotFound,
    /// The content is not a well-formed command document.
    ParseError(String),
    /// The source exists but could not be read.
    IoError(String),
    /// Two commands share this name, or the name repeats an earlier alias.
    DuplicateName(String),
    /// This alias repeats a command name or another alias.
    DuplicateAlias(String),
}

/// The lookup keys that one command declares: its name and its aliases.
pub type Decl = (Seq<char>, Seq<Seq<char>>);

/// The aliases of a command, as character sequences.
pub open spec fn alias_views(c: Command) -> Seq<Seq<char>> {
    match c.aliases {
        Some(a) => views(a@),
        None => Seq::empty(),
    }
}

/// The keys declared by each command, in order.
pub open spec fn decls(cmds: Seq<Command>) -> Seq<Decl> {
    cmds.map_values(|c: Command| (c.name@, alias_views(c)))
}

/// Some declaration in `d` has `s` as its name or as one of its aliases.
pub open spec fn declares(d: Seq<Decl>, s: Seq<char>) -> bool {
    exists|t: int| #![trigger d[t]] 0 <= t < d.len() && (d[t].0 == s || d[t].1.contains(s))
}

/// A key that repeats one declared before it.
pub enum Clash {
    Name(Seq<char>),
    Alias(Seq<char>),
}

/// The first alias of `als` that repeats a key of `d`, `name`, or an
/// alias before it.
pub open spec fn alias_clash(d: Seq<Decl>, name: Seq<char>, als: Seq<Seq<char>>) -> Option<Clash>
    decreases als.len(),
{
    if als.len() == 0 {
        None
    } else {
        match alias_clash(d, name, als.drop_last()) {
            Some(c) => Some(c),
            None => if declares(d.push((name, als.drop_last())), als.last()) {
                Some(Clash::Alias(als.last()))
            } else {
                None
            },
        }
    }
}

/// The first key, taken in declaration order (each name before its
/// aliases), that repeats a key declared before it.
pub open spec fn first_clash(d: Seq<Decl>) -> Option<Clash>
    decreases d.len(),
{
    if d.len() == 0 {
        None
    } else {
        match first_clash(d.drop_last()) {
            Some(c) => Some(c),
            None => if declares(d.drop_last(), d.last().0) {
                Some(Clash::Name(d.last().0))
            } else {
                alias_clash(d.drop_last(), d.last().0, d.last().1)
            },
        }
    }
}

/// `e` is the error that reports clash `c`.
pub open spec fn reports(e: ConfigError, c: Clash) -> bool {
    match c {
        Clash::Name(s) => e is DuplicateName && e->DuplicateName_0@ == s,
        Clash::Alias(s) => e is DuplicateAlias && e->DuplicateAlias_0@ == s,
    }
}

/// The keys of an index, as character sequences.
pub open spec fn index_keys(idx: Seq<(String, usize)>) -> Seq<Seq<char>> {
    idx.map_values(|e: (String, usize)| e.0@)
}

/// `names` and `aliases` index exactly the keys of `d` by position.
pub open spec fn indexed(names: Seq<(String, usize)>, aliases: Seq<(String, usize)>, d: Seq<Decl>) -> bool {
    &&& names.len() == d.len()
    &&& forall|t: int| 0 <= t < d.len() ==> (#[trigger] names[t]).0@ == d[t].0 && names[t].1 == t
    &&& forall|e: int|
        0 <= e < aliases.len() ==> (#[trigger] aliases[e]).1 < d.len() && d[aliases[e].1 as int].1.contains(
            aliases[e].0@,
        )
    &&& forall|t: int, b: int|
        0 <= t < d.len() && 0 <= b < d[t].1.len() ==> has_entry(aliases, #[trigger] d[t].1[b], t)
}

/// Some entry of `idx` maps `s` to position `t`.
pub open spec fn has_entry(idx: Seq<(String, usize)>, s: Seq<char>, t: int) -> bool {
    exists|e: int| 0 <= e < idx.len() && (#[trigger] idx[e]).0@ == s && idx[e].1 == t
}

/// A clash found among the first `k` declarations is the first clash of all.
pub proof fn lemma_first_clash_extends(d: Seq<Decl>, k: int)
    requires
        0 <= k <= d.len(),
        first_clash(d.take(k)) is Some,
    ensures
        first_clash(d) == first_clash(d.take(k)),
    decreases d.len(),
{
    if k == d.len() {
        assert(d.take(k) =~= d);
    } else {
        assert(d.drop_last().take(k) =~= d.take(k));
        lemma_first_clash_extends(d.drop_last(), k);
    }
}

/// A clash found among the first `k` aliases is the first alias clash.
pub proof fn lemma_alias_clash_extends(d: Seq<Decl>, name: Seq<char>, als: Seq<Seq<char>>, k: int)
    requires
        0 <= k <= als.len(),
        alias_clash(d, name, als.take(k)) is Some,
    ensures
        alias_clash(d, name, als) == alias_clash(d, name, als.take(k)),
    decreases als.len(),
{
    if k == als.len() {
        assert(als.take(k) =~= als);
    } else {
        assert(als.drop_last().take(k) =~= als.take(k));
        lemma_alias_clash_extends(d, name, als.drop_last(), k);
    }
}

/// The position in `idx` of an entry whose key is `key`, if any.
fn index_find(idx: &Vec<(String, usize)>, key: &str) -> (r: Option<usize>)
    ensures
        match r {
            Some(e) => e < idx@.len() && idx@[e as int].0@ == key@,
            None => forall|e: int| 0 <= e < idx@.len() ==> (#[trigger] idx@[e]).0@ != key@,
        },
{
    let mut e: usize = 0;
    while e < idx.len()
        invariant
            e <= idx@.len(),
            forall|f: int| 0 <= f < e ==> (#[trigger] idx@[f]).0@ != key@,
        decreases idx@.len() - e,
    {
        if crate::order::str_equal(idx[e].0.as_str(), key) {
            return Some(e);
        }
        e = e + 1;
    }
    None
}

/// A key that no index entry holds is declared nowhere.
proof fn lemma_absent_undeclared(
    names: Seq<(String, usize)>,
    aliases: Seq<(String, usize)>,
    d: Seq<Decl>,
    s: Seq<char>,
)
    requires
        indexed(names, aliases, d),
        forall|e: int| 0 <= e < names.len() ==> (#[trigger] names[e]).0@ != s,
        forall|e: int| 0 <= e < aliases.len() ==> (#[trigger] aliases[e]).0@ != s,
    ensures
        !declares(d, s),
{
    assert forall|t: int| #![trigger d[t]] 0 <= t < d.len() implies !(d[t].0 == s || d[t].1.contains(s)) by {
        assert(names[t].0@ == d[t].0);
        if d[t].1.contains(s) {
            let b = choose|b: int| 0 <= b < d[t].1.len() && d[t].1[b] == s;
            assert(has_entry(aliases, d[t].1[b], t));
            let e = choose|e: int| 0 <= e < aliases.len() && (#[trigger] aliases[e]).0@ == d[t].1[b] && aliases[e].1 == t;
            assert(aliases[e].0@ == s);
        }
    }
}

/// Adds the aliases `list` of the declaration at position `p.len()` to
/// the alias index, stopping at the first that repeats a key.
fn index_aliases(
    names: &Vec<(String, usize)>,
    aliases: &mut Vec<(String, usize)>,
    list: &Vec<String>,
    pos: usize,
    Ghost(p): Ghost<Seq<Decl>>,
    Ghost(name): Ghost<Seq<char>>,
) -> (r: Result<(), ConfigError>)
    requires
        pos == p.len(),
        indexed(names@, old(aliases)@, p.push((name, Seq::empty()))),
    ensures
        match r {
            Ok(()) => indexed(names@, final(aliases)@, p.push((name, views(list@)))) && alias_clash(
                p,
                name,
                views(list@),
            ) is None,
            Err(e) => alias_clash(p, name, views(list@)) is Some && reports(
                e,
                alias_clash(p, name, views(list@))->0,
            ),
        },
{
    let ghost als = views(list@);
    assert(als.take(0) =~= Seq::<Seq<char>>::empty());
    let mut j: usize = 0;
    while j < list.len()
        invariant
            als == views(list@),
            pos == p.len(),
            j <= list@.len(),
            indexed(names@, aliases@, p.push((name, als.take(j as int)))),
            alias_clash(p, name, als.take(j as int)) is None,
        decreases list@.len() - j,
    {
        let a = &list[j];
        let ghost q = p.push((name, als.take(j as int)));
        let ghost q2 = p.push((name, als.take(j + 1)));
        assert(als.take(j + 1).drop_last() =~= als.take(j as int));
        assert(als.take(j + 1).last() == a@);
        let in_names = index_find(names, a.as_str());
        let in_aliases = index_find(aliases, a.as_str());
        if in_names.is_some() || in_aliases.is_some() {
            proof {
                match in_names {
                    Some(e) => {
                        assert(q[e as int].0 == a@);
                    },
                    None => {
                        let e = in_aliases->0;
                        let t = aliases@[e as int].1 as int;
                        assert(q[t].1.contains(a@));
                    },
                }
                assert(declares(q, a@));
                lemma_alias_clash_extends(p, name, als, j + 1);
            }
            return Err(ConfigError::DuplicateAlias(a.clone()));
        }
        proof {
            lemma_absent_undeclared(names@, aliases@, q, a@);
        }
        let ghost old_al = aliases@;
        aliases.push((a.clone(), pos));
        proof {
            assert forall|e: int| 0 <= e < aliases@.len() implies (#[trigger] aliases@[e]).1 < q2.len()
                && q2[aliases@[e].1 as int].1.contains(aliases@[e].0@) by {
                if e < aliases@.len() - 1 {
                    let t = aliases@[e].1 as int;
                    if t == pos {
                        let b = choose|b: int| 0 <= b < q[t].1.len() && q[t].1[b] == aliases@[e].0@;
                        assert(q2[t].1[b] == aliases@[e].0@);
                    } else {
                        assert(q2[t] == q[t]);
                    }
                } else {
                    assert(q2[pos as int].1[j as int] == a@);
                }
            }
            assert forall|t: int, b: int| 0 <= t < q2.len() && 0 <= b < q2[t].1.len() implies has_entry(
                aliases@,
                #[trigger] q2[t].1[b],
                t,
            ) by {
                if t == pos && b == j {
                    assert(aliases@[aliases@.len() - 1].0@ == q2[t].1[b]);
                } else {
                    assert(q2[t].1[b] == q[t].1[b]);
                    assert(0 <= b < q[t].1.len());
                    assert(has_entry(old_al, q[t].1[b], t));
                    let e = choose|e: int| 0 <= e < old_al.len() && (#[trigger] old_al[e]).0@ == q[t].1[b] && old_al[e].1 == t;
                    assert(aliases@[e] == old_al[e]);
                }
            }
            assert forall|t: int| 0 <= t < q2.len() implies (#[trigger] names@[t]).0@ == q2[t].0 && names@[t].1 == t by {
                assert(q2[t].0 == q[t].0);
            }
        }
        j = j + 1;
    }
    assert(als.take(j as int) =~= als);
    Ok(())
}

/// The keys held by the two indexes are exactly the declared keys.
proof fn lemma_index_keys(names: Seq<(String, usize)>, aliases: Seq<(String, usize)>, d: Seq<Decl>, s: Seq<char>)
    requires
        indexed(names, aliases, d),
    ensures
        declares(d, s) <==> (index_keys(names).contains(s) || index_keys(aliases).contains(s)),
{
    if declares(d, s) {
        let t = choose|t: int| #![trigger d[t]] 0 <= t < d.len() && (d[t].0 == s || d[t].1.contains(s));
        if d[t].0 == s {
            assert(index_keys(names)[t] == s);
        } else {
            let b = choose|b: int| 0 <= b < d[t].1.len() && d[t].1[b] == s;
            assert(has_entry(aliases, d[t].1[b], t));
            let e = choose|e: int| 0 <= e < aliases.len() && (#[trigger] aliases[e]).0@ == d[t].1[b] && aliases[e].1 == t;
            assert(index_keys(aliases)[e] == s);
        }
    }
    if index_keys(names).contains(s) {
        let t = choose|t: int| 0 <= t < index_keys(names).len() && index_keys(names)[t] == s;
        assert(d[t].0 == s);
    }
    if index_keys(aliases).contains(s) {
        let e = choose|e: int| 0 <= e < index_keys(aliases).len() && index_keys(aliases)[e] == s;
        assert(aliases[e].0@ == s);
        assert(d[aliases[e].1 as int].1.contains(s));
    }
}

/// What a sequence holds after a push.
proof fn lemma_push_contains(a: Seq<Seq<char>>, x: Seq<char>, s: Seq<char>)
    ensures
        a.push(x).contains(s) <==> (a.contains(s) || s == x),
{
    if a.push(x).contains(s) {
        let k = choose|k: int| 0 <= k < a.push(x).len() && a.push(x)[k] == s;
        if k < a.len() {
            assert(a[k] == s);
        }
    }
    if a.contains(s) {
        let k = choose|k: int| 0 <= k < a.len() && a[k] == s;
        assert(a.push(x)[k] == s);
    }
    if s == x {
        assert(a.push(x)[a.len() as int] == s);
    }
}

/// `c` carries category `cat`.
pub open spec fn in_category(c: Command, cat: Seq<char>) -> bool {
    c.category is Some && c.category->0@ == cat
}

/// Some command of `cmds` carries category `cat`.
pub open spec fn has_category(cmds: Seq<Command>, cat: Seq<char>) -> bool {
    exists|i: int| 0 <= i < cmds.len() && in_category(#[trigger] cmds[i], cat)
}

/// The validated registry: the commands in load order, and indexes of
/// their names and aliases by position. The indexes are vectors searched
/// in order rather than hash maps: vstd models hash maps only for keys
/// with a hashing model, which `String` lacks, so with `String` keys no
/// lookup result could be proved.
pub struct CommandRegistry {
    commands: Vec<Command>,
    name_map: Vec<(String, usize)>,
    alias_map: Vec<(String, usize)>,
}

impl CommandRegistry {
    /// The commands, in load order.
    pub closed spec fn view(&self) -> Seq<Command> {
        self.commands@
    }

    /// The indexes agree with the commands, and no key is declared twice.
    pub closed spec fn wf(&self) -> bool {
        &&& indexed(self.name_map@, self.alias_map@, decls(self.commands@))
        &&& first_clash(decls(self.commands@)) is None
    }

    /// An empty registry.
    pub fn new() -> (r: Self)
        ensures
            r.wf(),
            r@.len() == 0,
    {
        let r = CommandRegistry { commands: Vec::new(), name_map: Vec::new(), alias_map: Vec::new() };
        proof {
            assert(decls(r.commands@).len() == 0);
        }
        r
    }

    /// Builds a registry from `commands`, validated in order. It fails
    /// with the first repeated key, and then no registry exists.
    pub fn from_commands(commands: Vec<Command>) -> (r: Result<Self, ConfigError>)
        ensures
            match r {
                Ok(reg) => {
                    &&& first_clash(decls(commands@)) is None
                    &&& unique_keys(commands@)
                    &&& reg.wf()
                    &&& reg@ == commands@
                },
                Err(e) => {
                    &&& first_clash(decls(commands@)) is Some
                    &&& reports(e, first_clash(decls(commands@))->0)
                },
            },
    {
        let mut reg = CommandRegistry::new();
        match reg.load_commands(commands) {
            Ok(()) => Ok(reg),
            Err(e) => Err(e),
        }
    }

    /// Validates `commands` in order and, when no key repeats, makes them
    /// the registry's contents. On the first repeated key it fails with
    /// that key, and the registry is left as it was.
    fn load_commands(&mut self, commands: Vec<Command>) -> (r: Result<(), ConfigError>)
        ensures
            match r {
                Ok(()) => {
                    &&& first_clash(decls(commands@)) is None
                    &&& unique_keys(commands@)
                    &&& final(self).wf()
                    &&& final(self)@ == commands@
                },
                Err(e) => {
                    &&& first_clash(decls(commands@)) is Some
                    &&& reports(e, first_clash(decls(commands@))->0)
                    &&& *final(self) == *old(self)
                },
            },
    {
        let ghost d = decls(commands@);
        let mut names: Vec<(String, usize)> = Vec::new();
        let mut aliases: Vec<(String, usize)> = Vec::new();
        let mut i: usize = 0;
        assert(d.take(0) =~= Seq::<Decl>::empty());
        while i < commands.len()
            invariant
                d == decls(commands@),
                i <= commands@.len(),
                indexed(names@, aliases@, d.take(i as int)),
                first_clash(d.take(i as int)) is None,
            decreases commands@.len() - i,
        {
            let ghost p = d.take(i as int);
            let ghost next = d.take(i + 1);
            assert(next.drop_last() =~= p);
            assert(next.last() == d[i as int]);
            let name = &commands[i].name;
            let in_names = index_find(&names, name.as_str());
            let in_aliases = index_find(&aliases, name.as_str());
            if in_names.is_some() || in_aliases.is_some() {
                proof {
                    match in_names {
                        Some(e) => {
                            assert(p[e as int].0 == name@);
                        },
                        None => {
                            let e = in_aliases->0;
                            let t = aliases@[e as int].1 as int;
                            assert(p[t].1.contains(name@));
                        },
                    }
                    assert(declares(p, name@));
                    lemma_first_clash_extends(d, i + 1);
                }
                return Err(ConfigError::DuplicateName(name.clone()));
            }
            proof {
                lemma_absent_undeclared(names@, aliases@, p, name@);
            }
            let ghost old_names = names@;
            names.push((name.clone(), i));
            let ghost q = p.push((name@, Seq::<Seq<char>>::empty()));
            proof {
                assert forall|t: int| 0 <= t < q.len() implies (#[trigger] names@[t]).0@ == q[t].0 && names@[t].1 == t by {
                    if t < p.len() {
                        assert(names@[t] == old_names[t]);
                    }
                }
                assert forall|t: int, b: int| 0 <= t < q.len() && 0 <= b < q[t].1.len() implies has_entry(
                    aliases@,
                    #[trigger] q[t].1[b],
                    t,
                ) by {
                    assert(q[t] == p[t]);
                }
                assert forall|e: int| 0 <= e < aliases@.len() implies (#[trigger] aliases@[e]).1 < q.len()
                    && q[aliases@[e].1 as int].1.contains(aliases@[e].0@) by {
                    assert(q[aliases@[e].1 as int] == p[aliases@[e].1 as int]);
                }
            }
            match &commands[i].aliases {
                Some(list) => {
                    let res = index_aliases(&names, &mut aliases, list, i, Ghost(p), Ghost(name@));
                    match res {
                        Ok(()) => {
                            proof {
                                assert(p.push((name@, views(list@))) =~= next);
                            }
                        },
                        Err(e) => {
                            proof {
                                lemma_first_clash_extends(d, i + 1);
                            }
                            return Err(e);
                        },
                    }
                },
                None => {
                    proof {
                        assert(q =~= next);
                    }
                },
            }
            i = i + 1;
        }
        proof {
            assert(d.take(i as int) =~= d);
            lemma_no_clash_unique(commands@);
        }
        self.commands = commands;
        self.name_map = names;
        self.alias_map = aliases;
        Ok(())
    }

    /// The command whose name or alias is `key`, if any.
    pub fn get_command(&self, key: &str) -> (r: Option<&Command>)
        requires
            self.wf(),
        ensures
            r is Some <==> declares(decls(self@), key@),
            r matches Some(c) ==> exists|i: int|
                0 <= i < self@.len() && *c == self@[i] && (decls(self@)[i].0 == key@ || decls(self@)[i].1.contains(key@)),
    {
        proof {
            lemma_index_keys(self.name_map@, self.alias_map@, decls(self@), key@);
        }
        let ghost d = decls(self@);
        match index_find(&self.name_map, key) {
            Some(e) => {
                proof {
                    assert(d[e as int].0 == key@);
                    assert(declares(d, key@));
                }
                return Some(&self.commands[self.name_map[e].1]);
            },
            None => {},
        }
        match index_find(&self.alias_map, key) {
            Some(e) => {
                proof {
                    let t = self.alias_map@[e as int].1 as int;
                    assert(d[t].1.contains(key@));
                    assert(declares(d, key@));
                }
                Some(&self.commands[self.alias_map[e].1])
            },
            None => {
                proof {
                    assert(!index_keys(self.name_map@).contains(key@));
                    assert(!index_keys(self.alias_map@).contains(key@));
                }
                None
            },
        }
    }

    /// Every command, in load order.
    pub fn get_all_commands(&self) -> (r: &[Command])
        ensures
            r@ == self@,
    {
        self.commands.as_slice()
    }

    /// The name of every command, in load order.
    pub fn get_command_names(&self) -> (r: Vec<&String>)
        requires
            self.wf(),
        ensures
            r@.len() == self@.len(),
            forall|i: int| 0 <= i < self@.len() ==> (#[trigger] r@[i])@ == self@[i].name@,
    {
        let mut r: Vec<&String> = Vec::new();
        let mut i: usize = 0;
        while i < self.name_map.len()
            invariant
                self.wf(),
                i <= self.name_map@.len(),
                r@.len() == i,
                forall|k: int| 0 <= k < i ==> (#[trigger] r@[k])@ == self@[k].name@,
            decreases self.name_map@.len() - i,
        {
            proof {
                assert(decls(self@)[i as int].0 == self@[i as int].name@);
            }
            r.push(&self.name_map[i].0);
            i = i + 1;
        }
        r
    }

    /// Every name and alias that starts with `prefix`, in ascending order.
    pub fn get_completions(&self, prefix: &str) -> (r: Vec<String>)
        requires
            self.wf(),
        ensures
            strictly_sorted(views(r@)),
            forall|s: Seq<char>|
                #![trigger views(r@).contains(s)]
                views(r@).contains(s) <==> (declares(decls(self@), s) && is_prefix(prefix@, s)),
    {
        let mut r: Vec<String> = Vec::new();
        let mut i: usize = 0;
        while i < self.name_map.len()
            invariant
                i <= self.name_map@.len(),
                strictly_sorted(views(r@)),
                forall|s: Seq<char>|
                    #![trigger views(r@).contains(s)]
                    views(r@).contains(s) <==> (index_keys(self.name_map@.take(i as int)).contains(s) && is_prefix(prefix@, s)),
            decreases self.name_map@.len() - i,
        {
            let key = &self.name_map[i].0;
            let ghost before = index_keys(self.name_map@.take(i as int));
            let ghost after = index_keys(self.name_map@.take(i + 1));
            assert(after =~= before.push(key@));
            let ghost r0 = views(r@);
            if starts_with(key.as_str(), prefix) {
                insert_sorted(&mut r, key.clone());
            }
            proof {
                assert forall|s: Seq<char>| #![trigger views(r@).contains(s)] views(r@).contains(s) <==> (r0.contains(s) || (s == key@ && is_prefix(prefix@, s))) by {
                    lemma_push_contains(before, key@, s);
                }
                assert forall|s: Seq<char>| #![trigger after.contains(s)] after.contains(s) <==> (before.contains(s) || s == key@) by {
                    lemma_push_contains(before, key@, s);
                }
            }
            i = i + 1;
        }
        assert(self.name_map@.take(i as int) =~= self.name_map@);
        let mut j: usize = 0;
        while j < self.alias_map.len()
            invariant
                j <= self.alias_map@.len(),
                strictly_sorted(views(r@)),
                forall|s: Seq<char>|
                    #![trigger views(r@).contains(s)]
                    views(r@).contains(s) <==> ((index_keys(self.name_map@).contains(s) || index_keys(
                        self.alias_map@.take(j as int),
                    ).contains(s)) && is_prefix(prefix@, s)),
            decreases self.alias_map@.len() - j,
        {
            let key = &self.alias_map[j].0;
            let ghost before = index_keys(self.alias_map@.take(j as int));
            let ghost after = index_keys(self.alias_map@.take(j + 1));
            assert(after =~= before.push(key@));
            let ghost r0 = views(r@);
            if starts_with(key.as_str(), prefix) {
                insert_sorted(&mut r, key.clone());
            }
            proof {
                assert forall|s: Seq<char>| #![trigger views(r@).contains(s)] views(r@).contains(s) <==> (r0.contains(s) || (s == key@ && is_prefix(prefix@, s))) by {
                    lemma_push_contains(before, key@, s);
                }
                assert forall|s: Seq<char>| #![trigger after.contains(s)] after.contains(s) <==> (before.contains(s) || s == key@) by {
                    lemma_push_contains(before, key@, s);
                }
            }
            j = j + 1;
        }
        assert(self.alias_map@.take(j as int) =~= self.alias_map@);
        proof {
            assert forall|s: Seq<char>| #![trigger views(r@).contains(s)] views(r@).contains(s) <==> (declares(decls(self@), s) && is_prefix(prefix@, s)) by {
                lemma_index_keys(self.name_map@, self.alias_map@, decls(self@), s);
            }
        }
        r
    }

    /// Every command whose category is exactly `category`, in load order.
    pub fn get_commands_by_category(&self, category: &str) -> (r: Vec<&Command>)
        ensures
            r@.map_values(|c: &Command| *c) == self@.filter(|c: Command| in_category(c, category@)),
    {
        let ghost pred = |c: Command| in_category(c, category@);
        let mut r: Vec<&Command> = Vec::new();
        let mut i: usize = 0;
        assert(self@.take(0) =~= Seq::<Command>::empty());
        assert(r@.map_values(|c: &Command| *c) =~= Seq::<Command>::empty());
        while i < self.commands.len()
            invariant
                i <= self.commands@.len(),
                pred == (|c: Command| in_category(c, category@)),
                r@.map_values(|c: &Command| *c) == self@.take(i as int).filter(pred),
            decreases self.commands@.len() - i,
        {
            let c = &self.commands[i];
            assert(self@.take(i + 1).drop_last() =~= self@.take(i as int));
            let matches = match &c.category {
                Some(cat) => str_equal(cat.as_str(), category),
                None => false,
            };
            let ghost r0 = r@;
            if matches {
                r.push(c);
                assert(r@.map_values(|c: &Command| *c) =~= r0.map_values(|c: &Command| *c).push(*c));
            }
            assert(self@.take(i + 1).last() == *c);
            assert(matches == pred(*c));
            reveal(Seq::filter);
            assert(self@.take(i + 1).filter(pred) == if pred(*c) {
                self@.take(i as int).filter(pred).push(*c)
            } else {
                self@.take(i as int).filter(pred)
            });
            assert(r@.map_values(|c: &Command| *c) == self@.take(i + 1).filter(pred));
            i = i + 1;
        }
        assert(self@.take(i as int) =~= self@);
        r
    }

    /// Every non-empty category in use, once each, in ascending order.
    pub fn get_categories(&self) -> (r: Vec<String>)
        ensures
            strictly_sorted(views(r@)),
            forall|s: Seq<char>|
                #![trigger views(r@).contains(s)]
                views(r@).contains(s) <==> (s.len() > 0 && has_category(self@, s)),
    {
        let mut r: Vec<String> = Vec::new();
        let mut i: usize = 0;
        while i < self.commands.len()
            invariant
                i <= self.commands@.len(),
                strictly_sorted(views(r@)),
                forall|s: Seq<char>|
                    #![trigger views(r@).contains(s)]
                    views(r@).contains(s) <==> (s.len() > 0 && has_category(self@.take(i as int), s)),
            decreases self.commands@.len() - i,
        {
            let ghost before = self@.take(i as int);
            let ghost after = self@.take(i + 1);
            assert(after =~= before.push(self@[i as int]));
            let ghost r0 = views(r@);
            match &self.commands[i].category {
                Some(cat) => {
                    if !cat.as_str().is_empty() {
                        insert_sorted(&mut r, cat.clone());
                    }
                },
                None => {},
            }
            proof {
                assert forall|s: Seq<char>|
                    #![trigger views(r@).contains(s)]
                    views(r@).contains(s) <==> (s.len() > 0 && has_category(after, s)) by {
                    assert(views(r@).contains(s) <==> (r0.contains(s) || (s.len() > 0 && in_category(self@[i as int], s))));
                    assert(r0.contains(s) <==> (s.len() > 0 && has_category(before, s)));
                    if in_category(self@[i as int], s) {
                        assert(after[i as int] == self@[i as int]);
                    }
                    if has_category(after, s) {
                        let k = choose|k: int| 0 <= k < after.len() && in_category(#[trigger] after[k], s);
                        if k < i {
                            assert(before[k] == after[k]);
                        }
                    }
                    if has_category(before, s) {
                        let k = choose|k: int| 0 <= k < before.len() && in_category(#[trigger] before[k], s);
                        assert(after[k] == before[k]);
                    }
                }
            }
            i = i + 1;
        }
        assert(self@.take(i as int) =~= self@);
        r
    }
}

} // verus!

verus! {

/// No two commands share a name, no alias equals any command's name, and
/// no alias is declared twice.
pub open spec fn unique_keys(cmds: Seq<Command>) -> bool {
    &&& forall|t: int, u: int|
        0 <= t < u < cmds.len() ==> (#[trigger] cmds[t]).name@ != (#[trigger] cmds[u]).name@
    &&& forall|t: int, u: int, b: int|
        0 <= t < cmds.len() && 0 <= u < cmds.len() && 0 <= b < alias_views(cmds[t]).len()
            ==> #[trigger] alias_views(cmds[t])[b] != (#[trigger] cmds[u]).name@
    &&& forall|t: int, a: int, u: int, b: int|
        0 <= t < cmds.len() && 0 <= u < cmds.len() && 0 <= a < alias_views(cmds[t]).len() && 0 <= b
            < alias_views(cmds[u]).len() && (t != u || a != b) ==> #[trigger] alias_views(cmds[t])[a]
            != #[trigger] alias_views(cmds[u])[b]
}

/// With no alias clash, no alias repeats a key declared before it.
proof fn lemma_no_alias_clash(d: Seq<Decl>, name: Seq<char>, als: Seq<Seq<char>>, b: int)
    requires
        alias_clash(d, name, als) is None,
        0 <= b < als.len(),
    ensures
        !declares(d.push((name, als.take(b))), als[b]),
    decreases als.len(),
{
    if b == als.len() - 1 {
        assert(als.drop_last() =~= als.take(b));
    } else {
        assert(als.drop_last().take(b) =~= als.take(b));
        lemma_no_alias_clash(d, name, als.drop_last(), b);
    }
}

/// Declarations with no clash declare each key once.
proof fn lemma_no_clash_unique(cmds: Seq<Command>)
    requires
        first_clash(decls(cmds)) is None,
    ensures
        unique_keys(cmds),
    decreases cmds.len(),
{
    if cmds.len() > 0 {
        let d = decls(cmds);
        let p = d.drop_last();
        let n = cmds.len() - 1;
        let last = cmds[n];
        let name = last.name@;
        let als = alias_views(last);
        assert(p =~= decls(cmds.drop_last()));
        lemma_no_clash_unique(cmds.drop_last());
        assert(!declares(p, name));
        assert(alias_clash(p, name, als) is None);
        assert forall|t: int| 0 <= t < n implies #[trigger] cmds[t].name@ != name && !alias_views(cmds[t]).contains(name) by {
            assert(p[t] == d[t]);
        }
        assert forall|t: int, u: int|
            0 <= t < u < cmds.len() implies (#[trigger] cmds[t]).name@ != (#[trigger] cmds[u]).name@ by {
            if u < n {
                assert(cmds.drop_last()[t] == cmds[t] && cmds.drop_last()[u] == cmds[u]);
            }
        }
        assert forall|t: int, u: int, b: int|
            0 <= t < cmds.len() && 0 <= u < cmds.len() && 0 <= b < alias_views(cmds[t]).len()
                implies #[trigger] alias_views(cmds[t])[b] != (#[trigger] cmds[u]).name@ by {
            if t < n && u < n {
                assert(cmds.drop_last()[t] == cmds[t] && cmds.drop_last()[u] == cmds[u]);
            } else if t < n {
                assert(alias_views(cmds[t]).contains(alias_views(cmds[t])[b]));
            } else {
                lemma_no_alias_clash(p, name, als, b);
                let q = p.push((name, als.take(b)));
                if u < n {
                    assert(q[u] == d[u]);
                } else {
                    assert(q[n as int].0 == name);
                }
            }
        }
        assert forall|t: int, a: int, u: int, b: int|
            0 <= t < cmds.len() && 0 <= u < cmds.len() && 0 <= a < alias_views(cmds[t]).len() && 0 <= b
                < alias_views(cmds[u]).len() && (t != u || a != b) implies #[trigger] alias_views(cmds[t])[a]
                != #[trigger] alias_views(cmds[u])[b] by {
            if t < n && u < n {
                assert(cmds.drop_last()[t] == cmds[t] && cmds.drop_last()[u] == cmds[u]);
            } else if t == n && u == n {
                if a < b {
                    lemma_no_alias_clash(p, name, als, b);
                    let q = p.push((name, als.take(b)));
                    assert(q[n as int].1[a] == als[a]);
                    assert(q[n as int].1.contains(als[a]));
                } else {
                    lemma_no_alias_clash(p, name, als, a);
                    let q = p.push((name, als.take(a)));
                    assert(q[n as int].1[b] == als[b]);
                    assert(q[n as int].1.contains(als[b]));
                }
            } else if t == n {
                lemma_no_alias_clash(p, name, als, a);
                let q = p.push((name, als.take(a)));
                assert(q[u] == d[u]);
                assert(q[u].1[b] == alias_views(cmds[u])[b]);
                if als[a] == alias_views(cmds[u])[b] {
                    assert(q[u].1.contains(als[a]));
                }
            } else {
                lemma_no_alias_clash(p, name, als, b);
                let q = p.push((name, als.take(b)));
                assert(q[t] == d[t]);
                assert(q[t].1[a] == alias_views(cmds[t])[a]);
                if als[b] == alias_views(cmds[t])[a] {
                    assert(q[t].1.contains(als[b]));
                }
            }
        }
    }
}

/// Every command list that loads declares each key once: no two
/// commands share a name, and no alias equals another alias or any
/// command's name.
pub proof fn lemma_loaded_keys_unique(cmds: Seq<Command>)
    requires
        first_clash(decls(cmds)) is None,
    ensures
        unique_keys(cmds),
{
    lemma_no_clash_unique(cmds);
}

} // verus!

verus! {

/// Within a registry a key belongs to one command only, so the command
/// that `get_command` returns for a name or an alias is the very command
/// that declared it.
pub proof fn lemma_key_owner_unique(reg: &CommandRegistry, key: Seq<char>, i: int, j: int)
    requires
        reg.wf(),
        0 <= i < reg@.len(),
        0 <= j < reg@.len(),
        decls(reg@)[i].0 == key || decls(reg@)[i].1.contains(key),
        decls(reg@)[j].0 == key || decls(reg@)[j].1.contains(key),
    ensures
        i == j,
{
    let cmds = reg@;
    lemma_no_clash_unique(cmds);
    assert(decls(cmds)[i] == (cmds[i].name@, alias_views(cmds[i])));
    assert(decls(cmds)[j] == (cmds[j].name@, alias_views(cmds[j])));
    if i != j {
        if alias_views(cmds[i]).contains(key) {
            let a = choose|a: int| 0 <= a < alias_views(cmds[i]).len() && alias_views(cmds[i])[a] == key;
            if alias_views(cmds[j]).contains(key) {
                let b = choose|b: int| 0 <= b < alias_views(cmds[j]).len() && alias_views(cmds[j])[b] == key;
                assert(alias_views(cmds[i])[a] != alias_views(cmds[j])[b]);
            } else {
                assert(alias_views(cmds[i])[a] != cmds[j].name@);
            }
        } else if alias_views(cmds[j]).contains(key) {
            let b = choose|b: int| 0 <= b < alias_views(cmds[j]).len() && alias_views(cmds[j])[b] == key;
            assert(alias_views(cmds[j])[b] != cmds[i].name@);
        } else if i < j {
            assert(cmds[i].name@ != cmds[j].name@);
        } else {
            assert(cmds[j].name@ != cmds[i].name@);
        }
    }
}

} // verus!

verus! {

/// A small example configuration: `build` (alias `b`) and `test` (alias
/// `t`), both run through `cargo` in category `development`, and `deploy`
/// (aliases `d`, `prod`), run through `bash` in `/opt/app` with
/// `ENVIRONMENT=production`, in category `deployment`. The environment
/// map's single entry is not stated below: `String` keys have no hashing
/// model to reason with.
pub fn sample_config() -> (r: CommandConfig)
    ensures
        r.version@ == "1.0"@,
        r.commands@.len() == 3,
        r.commands@[0].name@ == "build"@,
        r.commands@[1].name@ == "test"@,
        r.commands@[2].name@ == "deploy"@,
        alias_views(r.commands@[0]) == seq!["b"@],
        alias_views(r.commands@[1]) == seq!["t"@],
        alias_views(r.commands@[2]) == seq!["d"@, "prod"@],
        in_category(r.commands@[0], "development"@),
        in_category(r.commands@[1], "development"@),
        in_category(r.commands@[2], "deployment"@),
        r.commands@[0].description@ == "Build the project"@,
        r.commands@[1].description@ == "Run tests"@,
        r.commands@[2].description@ == "Deploy to production"@,
        r.commands@[0].executable@ == "cargo"@,
        r.commands@[1].executable@ == "cargo"@,
        r.commands@[2].executable@ == "bash"@,
        views(r.commands@[0].args@) == seq!["build"@],
        views(r.commands@[1].args@) == seq!["test"@],
        views(r.commands@[2].args@) == seq!["-c"@, "echo 'Deploying...'"@],
        r.commands@[0].working_dir is None,
        r.commands@[1].working_dir is None,
        r.commands@[2].working_dir matches Some(w) && w@ == "/opt/app"@,
        r.commands@[0].env_vars is None,
        r.commands@[1].env_vars is None,
        r.commands@[2].env_vars is Some,
{
    let mut env: HashMap<String, String> = HashMap::new();
    env.insert("ENVIRONMENT".to_owned(), "production".to_owned());
    let build = Command {
        name: "build".to_owned(),
        description: "Build the project".to_owned(),
        executable: "cargo".to_owned(),
        args: vec!["build".to_owned()],
        working_dir: None,
        env_vars: None,
        aliases: Some(vec!["b".to_owned()]),
        category: Some("development".to_owned()),
    };
    let test = Command {
        name: "test".to_owned(),
        description: "Run tests".to_owned(),
        executable: "cargo".to_owned(),
        args: vec!["test".to_owned()],
        working_dir: None,
        env_vars: None,
        aliases: Some(vec!["t".to_owned()]),
        category: Some("development".to_owned()),
    };
    let deploy = Command {
        name: "deploy".to_owned(),
        description: "Deploy to production".to_owned(),
        executable: "bash".to_owned(),
        args: vec!["-c".to_owned(), "echo 'Deploying...'".to_owned()],
        working_dir: Some("/opt/app".to_owned()),
        env_vars: Some(env),
        aliases: Some(vec!["d".to_owned(), "prod".to_owned()]),
        category: Some("deployment".to_owned()),
    };
    let r = CommandConfig { version: "1.0".to_owned(), commands: vec![build, test, deploy] };
    proof {
        assert(alias_views(r.commands@[0]) =~= seq!["b"@]);
        assert(alias_views(r.commands@[1]) =~= seq!["t"@]);
        assert(alias_views(r.commands@[2]) =~= seq!["d"@, "prod"@]);
        assert(views(r.commands@[0].args@) =~= seq!["build"@]);
        assert(views(r.commands@[1].args@) =~= seq!["test"@]);
        assert(views(r.commands@[2].args@) =~= seq!["-c"@, "echo 'Deploying...'"@]);
    }
    r
}

} // verus!

verus! {

impl ConfigError {
    /// A human-readable description of the failure.
    pub fn message(&self) -> (r: String)
        ensures
            r@ == match self {
                ConfigError::FileNotFound => "Configuration file not found"@,
                ConfigError::ParseError(m) => "Parse error: "@ + m@,
                ConfigError::IoError(m) => "IO error: "@ + m@,
                ConfigError::DuplicateName(n) => "Duplicate command name: "@ + n@,
                ConfigError::DuplicateAlias(a) => "Duplicate alias or command name: "@ + a@,
            },
    {
        let (head, detail): (&str, Option<&String>) = match self {
            ConfigError::FileNotFound => ("Configuration file not found", None),
            ConfigError::ParseError(m) => ("Parse error: ", Some(m)),
            ConfigError::IoError(m) => ("IO error: ", Some(m)),
            ConfigError::DuplicateName(n) => ("Duplicate command name: ", Some(n)),
            ConfigError::DuplicateAlias(a) => ("Duplicate alias or command name: ", Some(a)),
        };
        let mut r = head.to_owned();
        match detail {
            Some(d) => r.append(d.as_str()),
            None => {},
        }
        r
    }
}

} // verus!
