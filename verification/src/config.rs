//! The settings of the relay: its port from the command line, keys and access lists
//! from the environment.

use crate::security;
use crate::security::Acl;
use crate::security::KeyRegistry;
use crate::str_map::StrMap;
use crate::text;
use vstd::prelude::*;

verus! {

/// `name` stands at position `i` of `args`, and not before.
pub open spec fn first_arg(args: Seq<String>, i: int, name: Seq<char>) -> bool {
    &&& 0 <= i < args.len()
    &&& args[i]@ == name
    &&& forall|j: int| 0 <= j < i ==> (#[trigger] args[j])@ != name
}

/// The argument behind the first `--port` is the number `port`.
pub open spec fn port_given(args: Seq<String>, port: u16) -> bool {
    exists|i: int|
        {
            &&& #[trigger] first_arg(args, i, "--port"@)
            &&& i + 1 < args.len()
            &&& text::is_number(args[i + 1]@)
            &&& text::number(text::digits_of(args[i + 1]@)) == port
        }
}

/// The port given by `--port <number>` among the arguments of the process; `None` if
/// there is none, or it is not a port number.
pub fn parse_port_arg(args: &Vec<String>) -> (port: Option<u16>)
    ensures
        match port {
            Some(p) => port_given(args@, p),
            None => forall|p: u16| !port_given(args@, p),
        },
{
    let mut i: usize = 0;
    while i < args.len()
        invariant
            i <= args.len(),
            forall|j: int| 0 <= j < i ==> (#[trigger] args@[j])@ != "--port"@,
        decreases args.len() - i,
    {
        if text::text_eq(args[i].as_str(), "--port") {
            assert(first_arg(args@, i as int, "--port"@));
            assert forall|j: int| #[trigger]
                first_arg(args@, j, "--port"@) implies j == i by {}
            if i + 1 < args.len() {
                return text::parse_u16(args[i + 1].as_str());
            }
            return None;
        }
        i += 1;
    }
    None
}

/// The variables as pairs of texts.
pub open spec fn var_views(vars: Seq<(String, String)>) -> Seq<(Seq<char>, Seq<char>)> {
    vars.map_values(|var: (String, String)| (var.0@, var.1@))
}

/// What is set by the variables whose names start with `prefix` and whose values are
/// `valid`, by the rest of the name; of several with one name the last counts.
pub open spec fn settings(
    vars: Seq<(Seq<char>, Seq<char>)>,
    prefix: Seq<char>,
    valid: spec_fn(Seq<char>) -> bool,
) -> Map<Seq<char>, Seq<char>>
    decreases vars.len(),
{
    if vars.len() == 0 {
        Map::empty()
    } else {
        let front = settings(vars.drop_last(), prefix, valid);
        let (name, value) = vars.last();
        if prefix.is_prefix_of(name) && valid(value) {
            front.insert(name.skip(prefix.len() as int), value)
        } else {
            front
        }
    }
}

/// What one more variable sets.
proof fn lemma_settings(
    vars: Seq<(Seq<char>, Seq<char>)>,
    prefix: Seq<char>,
    valid: spec_fn(Seq<char>) -> bool,
    n: int,
)
    requires
        0 <= n < vars.len(),
    ensures
        ({
            let less = settings(vars.take(n), prefix, valid);
            let more = settings(vars.take(n + 1), prefix, valid);
            let (name, value) = vars[n];
            &&& !prefix.is_prefix_of(name) ==> more == less
            &&& forall|rest: Seq<char>|
                name == #[trigger] (prefix + rest) ==> more == if valid(value) {
                    less.insert(rest, value)
                } else {
                    less
                }
        }),
{
    let more = vars.take(n + 1);
    assert(more.drop_last() =~= vars.take(n));
    assert(more.last() == vars[n]);
    let (name, value) = vars[n];
    assert forall|rest: Seq<char>| name == #[trigger] (prefix + rest) implies prefix.is_prefix_of(
        name,
    ) && name.skip(prefix.len() as int) == rest by {
        assert(name.subrange(0, prefix.len() as int) =~= prefix);
        assert(name.skip(prefix.len() as int) =~= rest);
    }
}

/// The value stands for a key: 64 hexadecimal digits, white space around them aside.
pub open spec fn is_key(value: Seq<char>) -> bool {
    security::is_hex_64(text::trimmed(value))
}

/// The keys set by the variables.
pub open spec fn key_settings(vars: Seq<(Seq<char>, Seq<char>)>) -> Map<Seq<char>, Seq<char>> {
    settings(vars, "CRDT_KEY_"@, |value: Seq<char>| is_key(value))
}

/// `key` holds the bytes that `value` gives in hexadecimal digits.
pub open spec fn hex_of(value: Seq<char>, key: Seq<u8>) -> bool {
    key.len() == 32 && forall|n: int|
        0 <= n < 32 ==> (#[trigger] key[n]) == security::hex_byte(text::trimmed(value), n)
}

/// The keys given by variables `CRDT_KEY_<node>` with 64 hexadecimal digits; other
/// variables are passed over.
pub fn build_key_registry_from_env(vars: &Vec<(String, String)>) -> (registry: KeyRegistry)
    ensures
        registry.well_formed(),
        registry@.dom() == key_settings(var_views(vars@)).dom(),
        forall|node: Seq<char>| #[trigger]
            registry@.contains_key(node) ==> hex_of(
                key_settings(var_views(vars@))[node],
                registry@[node]@,
            ),
{
    let ghost all = var_views(vars@);
    let ghost prefix = "CRDT_KEY_"@;
    let ghost valid = |value: Seq<char>| is_key(value);
    let mut registry: KeyRegistry = StrMap::new();
    let mut n: usize = 0;
    assert(registry@.dom() =~= key_settings(all.take(0)).dom());
    while n < vars.len()
        invariant
            n <= vars.len(),
            all == var_views(vars@),
            prefix == "CRDT_KEY_"@,
            valid == (|value: Seq<char>| is_key(value)),
            registry.well_formed(),
            registry@.dom() == key_settings(all.take(n as int)).dom(),
            forall|node: Seq<char>| #[trigger]
                registry@.contains_key(node) ==> hex_of(
                    key_settings(all.take(n as int))[node],
                    registry@[node]@,
                ),
        decreases vars.len() - n,
    {
        proof {
            lemma_settings(all, prefix, valid, n as int);
            assert(all[n as int].0 == vars@[n as int].0@);
            assert(all[n as int].1 == vars@[n as int].1@);
        }
        match text::strip_prefix(vars[n].0.as_str(), "CRDT_KEY_") {
            None => {},
            Some(node) => {
                assert(all[n as int].0 == prefix + node@);
                match security::hex_decode_32(vars[n].1.as_str()) {
                    Ok(key) => {
                        registry.insert(node, key);
                    },
                    Err(_) => {},
                }
            },
        }
        n += 1;
        assert(registry@.dom() =~= key_settings(all.take(n as int)).dom());
    }
    assert(all.take(n as int) =~= all);
    registry
}

/// The pieces of `value` between commas, without white space around them and without
/// empty ones.
pub open spec fn listed(value: Seq<char>) -> Seq<Seq<char>> {
    nonempty(text::comma_pieces(value))
}

/// The pieces, without white space around them and without empty ones.
pub open spec fn nonempty(pieces: Seq<Seq<char>>) -> Seq<Seq<char>>
    decreases pieces.len(),
{
    if pieces.len() == 0 {
        Seq::empty()
    } else {
        let front = nonempty(pieces.drop_last());
        let piece = text::trimmed(pieces.last());
        if piece.len() == 0 {
            front
        } else {
            front.push(piece)
        }
    }
}

/// The strings as sequences of characters.
pub open spec fn string_views(strings: Seq<String>) -> Seq<Seq<char>> {
    strings.map_values(|s: String| s@)
}

/// The pieces of `value` between commas, without white space around them and without
/// empty ones.
pub fn comma_list(value: &str) -> (items: Vec<String>)
    ensures
        string_views(items@) == listed(value@),
{
    let pieces = text::split_at_commas(value);
    let ghost all = text::texts(pieces@);
    let mut items: Vec<String> = Vec::new();
    let mut i: usize = 0;
    assert(string_views(items@) =~= nonempty(all.take(0)));
    while i < pieces.len()
        invariant
            i <= pieces.len(),
            all == text::texts(pieces@),
            string_views(items@) == nonempty(all.take(i as int)),
        decreases pieces.len() - i,
    {
        let ghost before = string_views(items@);
        let piece = text::trim(pieces[i]);
        assert(all.take(i + 1).drop_last() =~= all.take(i as int));
        assert(all.take(i + 1).last() == pieces@[i as int]@);
        if !text::text_eq(piece, "") {
            items.push(piece.to_owned());
            assert(string_views(items@) =~= before.push(piece@));
            proof {
                reveal_strlit("");
                if piece@.len() == 0 {
                    assert(piece@ =~= ""@);
                }
            }
        } else {
            proof {
                reveal_strlit("");
            }
        }
        i += 1;
    }
    assert(all.take(i as int) =~= all);
    items
}

/// The value gives at least one prefix.
pub open spec fn is_list(value: Seq<char>) -> bool {
    listed(value).len() > 0
}

/// The access lists set by the variables.
pub open spec fn acl_settings(vars: Seq<(Seq<char>, Seq<char>)>) -> Map<Seq<char>, Seq<char>> {
    settings(vars, "CRDT_ACL_"@, |value: Seq<char>| is_list(value))
}

/// The access lists given by variables `CRDT_ACL_<node>` with prefixes between
/// commas; other variables, and those without any prefix, are passed over.
pub fn build_acl_from_env(vars: &Vec<(String, String)>) -> (acl: Acl)
    ensures
        acl.well_formed(),
        acl@.dom() == acl_settings(var_views(vars@)).dom(),
        forall|node: Seq<char>| #[trigger]
            acl@.contains_key(node) ==> string_views(acl@[node]@) == listed(
                acl_settings(var_views(vars@))[node],
            ),
{
    let ghost all = var_views(vars@);
    let ghost prefix = "CRDT_ACL_"@;
    let ghost valid = |value: Seq<char>| is_list(value);
    let mut acl: Acl = StrMap::new();
    let mut n: usize = 0;
    assert(acl@.dom() =~= acl_settings(all.take(0)).dom());
    while n < vars.len()
        invariant
            n <= vars.len(),
            all == var_views(vars@),
            prefix == "CRDT_ACL_"@,
            valid == (|value: Seq<char>| is_list(value)),
            acl.well_formed(),
            acl@.dom() == acl_settings(all.take(n as int)).dom(),
            forall|node: Seq<char>| #[trigger]
                acl@.contains_key(node) ==> string_views(acl@[node]@) == listed(
                    acl_settings(all.take(n as int))[node],
                ),
        decreases vars.len() - n,
    {
        proof {
            lemma_settings(all, prefix, valid, n as int);
            assert(all[n as int].0 == vars@[n as int].0@);
            assert(all[n as int].1 == vars@[n as int].1@);
        }
        match text::strip_prefix(vars[n].0.as_str(), "CRDT_ACL_") {
            None => {},
            Some(node) => {
                assert(all[n as int].0 == prefix + node@);
                let prefixes = comma_list(vars[n].1.as_str());
                assert(string_views(prefixes@).len() == prefixes@.len());
                if prefixes.len() > 0 {
                    acl.insert(node, prefixes);
                }
            },
        }
        n += 1;
        assert(acl@.dom() =~= acl_settings(all.take(n as int)).dom());
    }
    assert(all.take(n as int) =~= all);
    acl
}

} // verus!
