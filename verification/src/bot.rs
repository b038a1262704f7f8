//! Which commands a chat message calls: command sets by prefix, and the
//! routing of a message's first word to them.
use vstd::prelude::*;

use crate::text::{chars_of, find_first_of, first_of, string_from_range, word_ranges, words};

verus! {

/// A message split at its first space: the command word, and the rest
/// (empty when there is no space).
pub open spec fn spec_split_command(s: Seq<char>) -> (Seq<char>, Seq<char>) {
    match first_of(s, ' ', ' ') {
        Some(k) => (s.take(k), s.skip(k + 1)),
        None => (s, Seq::empty()),
    }
}

/// Joining the command word, the space and the rest gives the message back;
/// the command word holds no space.
pub proof fn lemma_split_command_rejoin(s: Seq<char>)
    ensures
        first_of(s, ' ', ' ') is Some ==> s == spec_split_command(s).0 + seq![' '] + spec_split_command(s).1,
        first_of(s, ' ', ' ') is None ==> s == spec_split_command(s).0 && spec_split_command(s).1.len() == 0,
        forall|i: int| 0 <= i < spec_split_command(s).0.len() ==> #[trigger] spec_split_command(s).0[i] != ' ',
{
    crate::text::lemma_first_of(s, ' ', ' ');
    if let Some(k) = first_of(s, ' ', ' ') {
        assert(s =~= s.take(k) + seq![' '] + s.skip(k + 1));
    }
}

/// Splits a message at its first space into the command word and the rest.
pub fn split_command(content: &str) -> (r: (String, String))
    ensures
        (r.0@, r.1@) == spec_split_command(content@),
{
    let chars = chars_of(content);
    let n = chars.len();
    assert(chars@.subrange(0, n as int) =~= content@);
    match find_first_of(&chars, 0, n, ' ', ' ') {
        Some(k) => {
            assert(chars@.subrange(0, k as int) =~= content@.take(k as int));
            assert(chars@.subrange(k + 1, n as int) =~= content@.skip(k + 1));
            (string_from_range(&chars, 0, k), string_from_range(&chars, k + 1, n))
        },
        None => (String::from_str(content), String::new()),
    }
}

/// Whether `chars` starts with `p`.
fn starts_with(chars: &Vec<char>, p: &Vec<char>) -> (r: bool)
    ensures
        r == (p.len() <= chars.len() && chars@.take(p.len() as int) == p@),
{
    if p.len() > chars.len() {
        return false;
    }
    let mut j: usize = 0;
    while j < p.len()
        invariant
            j <= p.len() <= chars.len(),
            forall|k: int| 0 <= k < j ==> chars@[k] == p@[k],
        decreases p.len() - j,
    {
        if chars[j] != p[j] {
            assert(chars@.take(p.len() as int)[j as int] != p@[j as int]);
            return false;
        }
        j = j + 1;
    }
    assert(chars@.take(p.len() as int) =~= p@);
    true
}

/// The views of a list of strings.
pub open spec fn string_views(v: Seq<String>) -> Seq<Seq<char>> {
    v.map_values(|s: String| s@)
}

/// The names of a list, as a set.
pub open spec fn name_set(v: Seq<String>) -> Set<Seq<char>> {
    string_views(v).to_set()
}

proof fn lemma_name_set_push(v: Seq<String>, x: String)
    ensures
        name_set(v.push(x)) == name_set(v).insert(x@),
{
    let a = string_views(v.push(x));
    let b = string_views(v);
    assert(a =~= b.push(x@));
    assert forall|z: Seq<char>| a.contains(z) <==> b.contains(z) || z == x@ by {
        if a.contains(z) {
            let i = choose|i: int| 0 <= i < a.len() && a[i] == z;
            if i < b.len() {
                assert(b[i] == z);
            }
        }
        if b.contains(z) {
            let i = choose|i: int| 0 <= i < b.len() && b[i] == z;
            assert(a[i] == z);
        }
        if z == x@ {
            assert(a[b.len() as int] == z);
        }
    }
    assert(name_set(v.push(x)) =~= name_set(v).insert(x@));
}

/// Commands that share a prefix, by name.
pub struct CommandSet {
    prefix: String,
    commands: Vec<String>,
}

/// The mathematical value of a command set.
pub struct CommandSetView {
    pub prefix: Seq<char>,
    pub commands: Set<Seq<char>>,
}

impl View for CommandSet {
    type V = CommandSetView;

    closed spec fn view(&self) -> CommandSetView {
        CommandSetView { prefix: self.prefix@, commands: name_set(self.commands@) }
    }
}

impl CommandSet {
    /// A set with no commands yet.
    pub fn new(prefix: &str) -> (r: CommandSet)
        ensures
            r@.prefix == prefix@,
            r@.commands == Set::<Seq<char>>::empty(),
    {
        let r = CommandSet { prefix: String::from_str(prefix), commands: Vec::new() };
        assert(name_set(r.commands@) =~= Set::<Seq<char>>::empty());
        r
    }

    /// Whether a command of that name is in the set.
    pub fn has_command(&self, name: &String) -> (r: bool)
        ensures
            r == self@.commands.contains(name@),
    {
        let mut i: usize = 0;
        while i < self.commands.len()
            invariant
                i <= self.commands.len(),
                forall|j: int| 0 <= j < i ==> self.commands@[j]@ != name@,
            decreases self.commands.len() - i,
        {
            if self.commands[i] == *name {
                assert(string_views(self.commands@)[i as int] == name@);
                return true;
            }
            i = i + 1;
        }
        proof {
            if string_views(self.commands@).contains(name@) {
                let j = choose|j: int|
                    0 <= j < string_views(self.commands@).len() && string_views(self.commands@)[j]
                        == name@;
                assert(self.commands@[j]@ == name@);
            }
        }
        false
    }

    /// The set with one more command (adding a name that is there already
    /// changes nothing).
    pub fn add_command(self, name: &str) -> (r: CommandSet)
        ensures
            r@.prefix == self@.prefix,
            r@.commands == self@.commands.insert(name@),
    {
        let mut set = self;
        let n = String::from_str(name);
        if set.has_command(&n) {
            assert(name_set(set.commands@).insert(name@) =~= name_set(set.commands@));
            set
        } else {
            let ghost before = set.commands@;
            set.commands.push(n);
            proof {
                lemma_name_set_push(before, n);
            }
            set
        }
    }
}

/// The command word calls the command named by what follows the set's
/// prefix, when the word starts with the prefix and the set has that name.
pub open spec fn calls(set: CommandSetView, cmd: Seq<char>) -> Option<Seq<char>> {
    if set.prefix.len() <= cmd.len() && cmd.take(set.prefix.len() as int) == set.prefix
        && set.commands.contains(cmd.skip(set.prefix.len() as int)) {
        Some(cmd.skip(set.prefix.len() as int))
    } else {
        None
    }
}

/// The (prefix, name) pairs that a command word calls, one per set that it
/// calls a command of, in the order of the sets.
pub open spec fn spec_route(sets: Seq<CommandSetView>, cmd: Seq<char>) -> Seq<(Seq<char>, Seq<char>)>
    decreases sets.len(),
{
    if sets.len() == 0 {
        Seq::empty()
    } else {
        let rest = spec_route(sets.drop_last(), cmd);
        match calls(sets.last(), cmd) {
            Some(name) => rest.push((sets.last().prefix, name)),
            None => rest,
        }
    }
}

/// The sets after adding `s`: the set with the same prefix is replaced in
/// its place, or `s` comes last when there is none.
pub open spec fn with_set(sets: Seq<CommandSetView>, s: CommandSetView) -> Seq<CommandSetView> {
    if exists|i: int| 0 <= i < sets.len() && sets[i].prefix == s.prefix {
        sets.update(choose|i: int| 0 <= i < sets.len() && sets[i].prefix == s.prefix, s)
    } else {
        sets.push(s)
    }
}

/// A command word made of a set's prefix and one of its command names calls
/// that command.
pub proof fn lemma_route_finds(sets: Seq<CommandSetView>, i: int, name: Seq<char>)
    requires
        0 <= i < sets.len(),
        sets[i].commands.contains(name),
    ensures
        spec_route(sets, sets[i].prefix + name).contains((sets[i].prefix, name)),
    decreases sets.len(),
{
    let cmd = sets[i].prefix + name;
    let rest = spec_route(sets.drop_last(), cmd);
    if i == sets.len() - 1 {
        assert(cmd.take(sets[i].prefix.len() as int) =~= sets[i].prefix);
        assert(cmd.skip(sets[i].prefix.len() as int) =~= name);
        assert(calls(sets.last(), cmd) == Some(name));
        assert(spec_route(sets, cmd) == rest.push((sets[i].prefix, name)));
        assert(spec_route(sets, cmd)[rest.len() as int] == (sets[i].prefix, name));
    } else {
        assert(sets.drop_last()[i] == sets[i]);
        lemma_route_finds(sets.drop_last(), i, name);
        let k = choose|k: int| 0 <= k < rest.len() && rest[k] == (sets[i].prefix, name);
        match calls(sets.last(), cmd) {
            Some(n) => {
                assert(spec_route(sets, cmd)[k] == rest[k]);
            },
            None => {},
        }
    }
}

/// All the command sets of the bot; no two share a prefix.
pub struct CommandSets {
    sets: Vec<CommandSet>,
}

impl CommandSets {
    /// The sets in the order they are kept.
    pub closed spec fn entries(self) -> Seq<CommandSetView> {
        self.sets@.map_values(|s: CommandSet| s@)
    }

    #[verifier::type_invariant]
    closed spec fn inv(self) -> bool {
        forall|i: int, j: int|
            0 <= i < j < self.sets.len() ==> self.sets@[i]@.prefix != self.sets@[j]@.prefix
    }

    /// No command sets.
    pub fn new() -> (r: CommandSets)
        ensures
            r.entries() == Seq::<CommandSetView>::empty(),
    {
        let r = CommandSets { sets: Vec::new() };
        assert(r.entries() =~= Seq::<CommandSetView>::empty());
        r
    }

    /// Where the set with that prefix is kept, if there is one.
    fn position(&self, prefix: &String) -> (r: Option<usize>)
        ensures
            r matches Some(i) ==> i < self.sets.len() && self.entries()[i as int].prefix == prefix@,
            r is None ==> forall|i: int|
                0 <= i < self.sets.len() ==> self.entries()[i].prefix != prefix@,
    {
        let mut i: usize = 0;
        while i < self.sets.len()
            invariant
                i <= self.sets.len(),
                forall|j: int| 0 <= j < i ==> self.entries()[j].prefix != prefix@,
            decreases self.sets.len() - i,
        {
            if self.sets[i].prefix == *prefix {
                return Some(i);
            }
            i = i + 1;
        }
        None
    }

    /// Adds a set; one with the same prefix is replaced in its place,
    /// otherwise the set comes last.
    pub fn add_command_set(&mut self, set: CommandSet)
        ensures
            final(self).entries() == with_set(old(self).entries(), set@),
    {
        proof {
            use_type_invariant(&*self);
        }
        let ghost old_entries = self.entries();
        let ghost sv = set@;
        let pos = self.position(&set.prefix);
        let mut sets: Vec<CommandSet> = Vec::new();
        std::mem::swap(&mut sets, &mut self.sets);
        match pos {
            Some(p) => {
                sets.set(p, set);
                proof {
                    let ne = sets@.map_values(|s: CommandSet| s@);
                    assert(ne =~= old_entries.update(p as int, sv));
                    assert forall|a: int, b: int| 0 <= a < b < sets.len() implies sets@[a]@.prefix
                        != sets@[b]@.prefix by {
                        assert(ne[a] == sets@[a]@);
                        assert(ne[b] == sets@[b]@);
                        assert(ne[a].prefix == old_entries[a].prefix);
                        assert(ne[b].prefix == old_entries[b].prefix);
                        assert(old_entries[a] == old(self).sets@[a]@);
                        assert(old_entries[b] == old(self).sets@[b]@);
                    }
                    let q = choose|q: int| 0 <= q < old_entries.len() && old_entries[q].prefix == sv.prefix;
                    assert(old_entries[q] == old(self).sets@[q]@);
                    assert(old_entries[p as int] == old(self).sets@[p as int]@);
                    assert(q == p);
                }
            },
            None => {
                sets.push(set);
                proof {
                    let ne = sets@.map_values(|s: CommandSet| s@);
                    assert(ne =~= old_entries.push(sv));
                    assert forall|a: int, b: int| 0 <= a < b < sets.len() implies sets@[a]@.prefix
                        != sets@[b]@.prefix by {
                        assert(ne[a] == sets@[a]@);
                        assert(ne[b] == sets@[b]@);
                        if b < old_entries.len() {
                            assert(old_entries[a] == old(self).sets@[a]@);
                            assert(old_entries[b] == old(self).sets@[b]@);
                        } else {
                            assert(ne[a] == old_entries[a]);
                        }
                    }
                }
            },
        }
        self.sets = sets;
    }

    /// The (prefix, name) pairs of the commands that a command word calls,
    /// in the order of the sets.
    pub fn route(&self, cmd: &str) -> (r: Vec<(String, String)>)
        ensures
            r@.map_values(|e: (String, String)| (e.0@, e.1@)) == spec_route(self.entries(), cmd@),
    {
        let chars = chars_of(cmd);
        let n = chars.len();
        let mut out: Vec<(String, String)> = Vec::new();
        let mut i: usize = 0;
        while i < self.sets.len()
            invariant
                i <= self.sets.len(),
                chars@ == cmd@,
                n == chars.len(),
                out@.map_values(|e: (String, String)| (e.0@, e.1@)) == spec_route(
                    self.entries().take(i as int),
                    cmd@,
                ),
            decreases self.sets.len() - i,
        {
            let set = &self.sets[i];
            let ghost sv = set@;
            assert(self.entries().take(i + 1).drop_last() =~= self.entries().take(i as int));
            assert(self.entries().take(i + 1).last() == sv);
            let ghost before = out@;
            let p = chars_of(set.prefix.as_str());
            let plen = p.len();
            let matches = starts_with(&chars, &p);
            if matches {
                let rest = string_from_range(&chars, plen, n);
                assert(rest@ =~= cmd@.skip(plen as int));
                if set.has_command(&rest) {
                    out.push((String::from_str(set.prefix.as_str()), rest));
                    assert(out@.map_values(|e: (String, String)| (e.0@, e.1@)) =~= before.map_values(
                        |e: (String, String)| (e.0@, e.1@),
                    ).push((sv.prefix, cmd@.skip(plen as int))));
                }
            }
            i = i + 1;
        }
        assert(self.entries().take(i as int) =~= self.entries());
        out
    }
}


/// `s` without `prefix` at its start, or `s` itself when it does not start
/// with `prefix`.
pub open spec fn strip_prefix(s: Seq<char>, prefix: Seq<char>) -> Seq<char> {
    if prefix.len() <= s.len() && s.take(prefix.len() as int) == prefix {
        s.skip(prefix.len() as int)
    } else {
        s
    }
}

/// The arguments of a raw command line: its words, split at Unicode
/// whitespace as `str::split_whitespace` splits, once the prefix (when
/// one is given and the line starts with it) is removed.
pub open spec fn spec_command_arguments(raw: Seq<char>, prefix: Option<Seq<char>>) -> Seq<Seq<char>> {
    match prefix {
        Some(p) => words(strip_prefix(raw, p), true),
        None => words(raw, true),
    }
}

/// The prefix is removed whole, and only from a line that starts with it:
/// a line made of the prefix and then `rest` has the arguments of `rest`,
/// and a line that does not start with the prefix keeps all of it.
pub proof fn lemma_command_prefix(p: Seq<char>, rest: Seq<char>, raw: Seq<char>)
    ensures
        spec_command_arguments(p + rest, Some(p)) == words(rest, true),
        (forall|r: Seq<char>| raw != p + r) ==> spec_command_arguments(raw, Some(p)) == words(raw, true),
{
    assert((p + rest).take(p.len() as int) =~= p);
    assert((p + rest).skip(p.len() as int) =~= rest);
    if p.len() <= raw.len() && raw.take(p.len() as int) == p {
        assert(raw =~= p + raw.skip(p.len() as int));
    }
}

/// Splits a raw command line into its arguments, first removing the prefix
/// from its start when one is given and the line starts with it.
pub fn command_arguments(raw: &str, prefix: Option<&str>) -> (r: Vec<String>)
    ensures
        string_views(r@) == spec_command_arguments(
            raw@,
            match prefix {
                Some(p) => Some(p@),
                None => None,
            },
        ),
{
    let chars = chars_of(raw);
    let n = chars.len();
    let start = match prefix {
        Some(p) => {
            let pc = chars_of(p);
            if starts_with(&chars, &pc) {
                pc.len()
            } else {
                0
            }
        },
        None => 0,
    };
    let ghost stripped = chars@.subrange(start as int, n as int);
    assert(stripped == match prefix {
        Some(p) => strip_prefix(raw@, p@),
        None => raw@,
    });
    let ws = word_ranges(&chars, start, n, true);
    let mut out: Vec<String> = Vec::new();
    let mut i: usize = 0;
    while i < ws.len()
        invariant
            i <= ws.len(),
            crate::text::ranges_hold(chars@, ws@, words(stripped, true)),
            string_views(out@) == words(stripped, true).take(i as int),
        decreases ws.len() - i,
    {
        let (a, b) = ws[i];
        assert(ws@[i as int] == (a, b));
        let ghost before = out@;
        out.push(string_from_range(&chars, a, b));
        assert(string_views(out@) =~= string_views(before).push(words(stripped, true)[i as int]));
        assert(words(stripped, true).take(i + 1) =~= words(stripped, true).take(i as int).push(words(stripped, true)[i as int]));
        i = i + 1;
    }
    assert(words(stripped, true).take(i as int) =~= words(stripped, true));
    out
}

} // verus!
