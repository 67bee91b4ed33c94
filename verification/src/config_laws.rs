//! Laws of the settings.

use crate::config;
use crate::security;
use crate::text;
use crate::text_laws;
use vstd::prelude::*;

verus! {

/// The port is the number in the argument behind the first `--port`; without one there is
/// none, nor where that argument is missing or no number.
pub proof fn law_port_follows_its_name(args: Seq<String>, i: int, port: u16)
    requires
        0 <= i <= args.len(),
        forall|j: int| 0 <= j < i ==> (#[trigger] args[j])@ != "--port"@,
        i < args.len() ==> args[i]@ == "--port"@,
    ensures
        i + 1 >= args.len() ==> !config::port_given(args, port),
        i + 1 < args.len() ==> (config::port_given(args, port) <==> text::is_number(args[i + 1]@)
            && text::number(text::digits_of(args[i + 1]@)) == port),
{
    if i < args.len() {
        assert(config::first_arg(args, i, "--port"@));
    }
    assert forall|j: int| #[trigger] config::first_arg(args, j, "--port"@) implies j == i by {
        if j < i {
            assert(args[j]@ != "--port"@);
        } else if j > i {
            assert(args[i]@ != "--port"@);
        }
    }
}

/// A variable `CRDT_KEY_<node>` sets the key of the node if its value is one, in place of
/// what came before; every other variable sets nothing.
pub proof fn law_variables_set_keys(
    vars: Seq<(Seq<char>, Seq<char>)>,
    name: Seq<char>,
    value: Seq<char>,
    node: Seq<char>,
)
    ensures
        config::key_settings(Seq::empty()).dom().is_empty(),
        name == "CRDT_KEY_"@ + node && security::is_hex_64(text::trimmed(value))
            ==> config::key_settings(vars.push((name, value))) == config::key_settings(
            vars,
        ).insert(node, value),
        !security::is_hex_64(text::trimmed(value)) || !"CRDT_KEY_"@.is_prefix_of(name)
            ==> config::key_settings(vars.push((name, value))) == config::key_settings(vars),
{
    let prefix = "CRDT_KEY_"@;
    assert(vars.push((name, value)).drop_last() =~= vars);
    assert(config::key_settings(Seq::empty()).dom() =~= Set::empty());
    if name == prefix + node {
        assert(name.subrange(0, prefix.len() as int) =~= prefix);
        assert(name.skip(prefix.len() as int) =~= node);
    }
}

/// A variable `CRDT_ACL_<node>` sets the access list of the node if it names at least one
/// prefix, in place of what came before; every other variable sets nothing.
pub proof fn law_variables_set_access_lists(
    vars: Seq<(Seq<char>, Seq<char>)>,
    name: Seq<char>,
    value: Seq<char>,
    node: Seq<char>,
)
    ensures
        config::acl_settings(Seq::empty()).dom().is_empty(),
        name == "CRDT_ACL_"@ + node && config::listed(value).len() > 0 ==> config::acl_settings(
            vars.push((name, value)),
        ) == config::acl_settings(vars).insert(node, value),
        config::listed(value).len() == 0 || !"CRDT_ACL_"@.is_prefix_of(name)
            ==> config::acl_settings(vars.push((name, value))) == config::acl_settings(vars),
{
    let prefix = "CRDT_ACL_"@;
    assert(vars.push((name, value)).drop_last() =~= vars);
    assert(config::acl_settings(Seq::empty()).dom() =~= Set::empty());
    if name == prefix + node {
        assert(name.subrange(0, prefix.len() as int) =~= prefix);
        assert(name.skip(prefix.len() as int) =~= node);
    }
}

/// A list holds what stands between its commas, in order, white space around it aside;
/// where nothing is left there is no item.
pub proof fn law_lists_hold_what_is_between_commas(front: Seq<char>, piece: Seq<char>)
    requires
        !piece.contains(','),
    ensures
        text::trimmed(piece).len() == 0 ==> config::listed(piece).len() == 0
            && config::listed(front + seq![','] + piece) == config::listed(front),
        text::trimmed(piece).len() > 0 ==> config::listed(piece) == seq![text::trimmed(piece)]
            && config::listed(front + seq![','] + piece) == config::listed(front).push(
            text::trimmed(piece),
        ),
{
    text_laws::law_commas_part_pieces(front, piece);
    let pieces = text::comma_pieces(front);
    assert(pieces.push(piece).drop_last() =~= pieces);
    let one = seq![piece];
    assert(one.drop_last() =~= Seq::empty());
    assert(config::nonempty(one.drop_last()) == Seq::<Seq<char>>::empty());
    if text::trimmed(piece).len() > 0 {
        assert(config::listed(piece) =~= seq![text::trimmed(piece)]);
    }
}

/// A key holds the bytes that its text gives, one for two digits.
pub proof fn law_keys_hold_the_bytes_of_their_text(value: Seq<char>, key: Seq<u8>, n: int)
    requires
        config::hex_of(value, key),
    ensures
        key.len() == 32,
        0 <= n < 32 ==> key[n] == security::hex_byte(text::trimmed(value), n),
{
}

/// Variables and strings are seen as their texts, one for one.
pub proof fn law_texts_one_for_one(vars: Seq<(String, String)>, strings: Seq<String>, i: int)
    ensures
        config::var_views(vars).len() == vars.len(),
        0 <= i < vars.len() ==> config::var_views(vars)[i] == (vars[i].0@, vars[i].1@),
        config::string_views(strings).len() == strings.len(),
        0 <= i < strings.len() ==> config::string_views(strings)[i] == strings[i]@,
{
}

} // verus!
