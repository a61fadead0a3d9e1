//! `ws://` targets.

use vstd::prelude::*;
use vstd::string::{StrSliceExecFns, StringExecFns};

use crate::error::ProtocolError;
use crate::text::{chars_of, has_at, find};

verus! {

/// Whether a target names the `ws` scheme.
pub open spec fn is_ws(target: Seq<char>) -> bool {
    crate::text::stands_at(target, "ws://"@, 0)
}

/// What follows the scheme, up to the first `/`.
pub open spec fn authority_of(target: Seq<char>) -> Seq<char> {
    let rest = target.skip(5);
    rest.take(crate::text::before(rest, '/') as int)
}

/// What follows the authority; `/` where nothing does.
pub open spec fn path_of(target: Seq<char>) -> Seq<char> {
    let rest = target.skip(5);
    let cut = crate::text::before(rest, '/') as int;
    if cut < rest.len() {
        rest.skip(cut)
    } else {
        "/"@
    }
}

/// Split `ws://host:port/path` into its authority and path.
pub fn split_target(target: &str) -> (parts: Result<(&str, &str), ProtocolError>)
    ensures
        match parts {
            Ok((authority, path)) => is_ws(target@) && authority@ == authority_of(target@)
                && path@ == path_of(target@),
            Err(ProtocolError::NotAWsTarget(refused)) => !is_ws(target@) && refused@ == target@,
            Err(_) => false,
        },
{
    proof {
        reveal_strlit("ws://");
    }
    let chars = chars_of(target);
    let scheme = chars_of("ws://");
    if chars.len() < 5 || !has_at(&chars, &scheme, 0) {
        return Err(ProtocolError::NotAWsTarget(target.to_owned()));
    }
    let cut: usize = find(&chars, 5, '/');
    let authority = target.substring_char(5, cut);
    let ghost rest = target@.skip(5);
    assert(authority@ =~= rest.take(cut - 5));
    if cut < chars.len() {
        let path = target.substring_char(cut, chars.len());
        assert(path@ =~= rest.skip(cut - 5));
        Ok((authority, path))
    } else {
        Ok((authority, "/"))
    }
}

/// Where a loopback endpoint at this address is sent to.
pub fn loopback_target(address: &str) -> (target: String)
    ensures
        target@ == "ws://"@ + address@ + "/pingpong"@,
{
    let mut target: String = "ws://".to_owned();
    target.append(address);
    target.append("/pingpong");
    target
}

/// A target is split where it was put together.
pub proof fn law_target_splits_into_its_parts(authority: Seq<char>, path: Seq<char>)
    requires
        !authority.contains('/'),
        path.len() > 0,
        path[0] == '/',
    ensures
        is_ws("ws://"@ + authority + path),
        authority_of("ws://"@ + authority + path) == authority,
        path_of("ws://"@ + authority + path) == path,
{
    reveal_strlit("ws://");
    let target = "ws://"@ + authority + path;
    let rest = target.skip(5);
    assert(target.subrange(0, 5) =~= "ws://"@);
    assert(rest =~= authority + path);
    assert forall|i: int| 0 <= i < authority.len() implies #[trigger] rest[i] != '/' by {
        assert(authority.contains(authority[i]));
    }
    crate::text::lemma_before_is(rest, '/', authority.len());
    assert(rest.take(authority.len() as int) =~= authority);
    assert(rest.skip(authority.len() as int) =~= path);
}

/// A loopback target leads to the address it was made from, and its path has no
/// white space.
pub proof fn law_loopback_target_leads_back(address: Seq<char>)
    requires
        !address.contains('/'),
    ensures
        is_ws("ws://"@ + address + "/pingpong"@),
        authority_of("ws://"@ + address + "/pingpong"@) == address,
        path_of("ws://"@ + address + "/pingpong"@) == "/pingpong"@,
        forall|i: int|
            0 <= i < "/pingpong"@.len() ==> !crate::text::is_white(#[trigger] "/pingpong"@[i]),
{
    reveal_strlit("/pingpong");
    law_target_splits_into_its_parts(address, "/pingpong"@);
}

/// A target without a path asks for `/`.
pub proof fn law_target_without_path_asks_for_the_root(authority: Seq<char>)
    requires
        !authority.contains('/'),
    ensures
        is_ws("ws://"@ + authority),
        authority_of("ws://"@ + authority) == authority,
        path_of("ws://"@ + authority) == "/"@,
{
    reveal_strlit("ws://");
    let target = "ws://"@ + authority;
    let rest = target.skip(5);
    assert(target.subrange(0, 5) =~= "ws://"@);
    assert(rest =~= authority);
    assert forall|i: int| 0 <= i < authority.len() implies #[trigger] rest[i] != '/' by {
        assert(authority.contains(authority[i]));
    }
    crate::text::lemma_before_is(rest, '/', authority.len());
    assert(rest.take(authority.len() as int) =~= authority);
}

/// A path always starts with `/`.
pub proof fn law_path_starts_with_a_slash(target: Seq<char>)
    ensures
        path_of(target).len() > 0,
        path_of(target)[0] == '/',
{
    reveal_strlit("/");
    crate::text::lemma_before(target.skip(5), '/');
}

/// A target names the scheme exactly where it starts with these five characters.
pub proof fn law_scheme_is_five_characters(target: Seq<char>)
    ensures
        is_ws(target) <==> target.len() >= 5 && target[0] == 'w' && target[1] == 's' && target[2]
            == ':' && target[3] == '/' && target[4] == '/',
{
    reveal_strlit("ws://");
    crate::text::law_part_stands_character_by_character(target, "ws://"@, 0);
    let scheme = "ws://"@;
    assert(is_ws(target) ==> target[0] == scheme[0] && target[1] == scheme[1] && target[2]
        == scheme[2] && target[3] == scheme[3] && target[4] == scheme[4]);
}

/// The parts of a target put it together again, but for a path that it left
/// out; and the authority has no `/`.
pub proof fn law_parts_put_the_target_together(target: Seq<char>)
    requires
        is_ws(target),
    ensures
        !authority_of(target).contains('/'),
        path_of(target).len() > 0,
        path_of(target)[0] == '/',
        target == "ws://"@ + authority_of(target) + path_of(target) || (target == "ws://"@
            + authority_of(target) && path_of(target) == "/"@),
{
    reveal_strlit("ws://");
    let rest = target.skip(5);
    let cut = crate::text::before(rest, '/') as int;
    crate::text::lemma_before(rest, '/');
    law_path_starts_with_a_slash(target);
    assert(target.take(5) =~= target.subrange(0, 5));
    assert(target =~= "ws://"@ + rest);
    assert(rest =~= rest.take(cut) + rest.skip(cut));
    if cut < rest.len() {
        assert(target =~= "ws://"@ + authority_of(target) + path_of(target));
    } else {
        assert(rest.take(cut) =~= rest);
        assert(target =~= "ws://"@ + authority_of(target));
    }
}

} // verus!
