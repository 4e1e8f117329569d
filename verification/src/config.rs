//! What is read from the command line.

use vstd::prelude::*;
use vstd::string::*;
use crate::fullmesh::IceServer;

verus! {

/// The fields of a text between separators; there is always one more than there are separators.
pub open spec fn fields(text: Seq<char>, separator: char) -> Seq<Seq<char>>
    decreases text.len(),
{
    if text.len() == 0 {
        seq![Seq::empty()]
    } else {
        let before = fields(text.drop_last(), separator);
        if text.last() == separator {
            before.push(Seq::empty())
        } else {
            before.update(before.len() - 1, before.last().push(text.last()))
        }
    }
}

/// The characters of some texts.
pub open spec fn texts(parts: Seq<String>) -> Seq<Seq<char>> {
    Seq::new(parts.len(), |i: int| parts[i]@)
}

/// There is always a field.
proof fn lemma_fields_nonempty(text: Seq<char>, separator: char)
    ensures
        fields(text, separator).len() > 0,
    decreases text.len(),
{
    if text.len() > 0 {
        lemma_fields_nonempty(text.drop_last(), separator);
    }
}

/// Splits a text at a separator.
pub fn split_fields(input: &str, separator: char) -> (parts: Vec<String>)
    ensures
        texts(parts@) == fields(input@, separator),
{
    let mut parts: Vec<String> = Vec::new();
    let len: usize = input.unicode_len();
    let mut from: usize = 0;
    let mut i: usize = 0;
    proof {
        assert(input@.take(0) =~= Seq::empty());
        assert(input@.subrange(0, 0) =~= Seq::empty());
        assert(texts(parts@).push(input@.subrange(0, 0)) =~= fields(input@.take(0), separator));
    }
    while i < len
        invariant
            len == input@.len(),
            from <= i <= len,
            fields(input@.take(i as int), separator) == texts(parts@).push(
                input@.subrange(from as int, i as int),
            ),
        decreases len - i,
    {
        let c = input.get_char(i);
        let ghost before = texts(parts@);
        let ghost done = fields(input@.take(i as int), separator);
        proof {
            assert(input@.take(i + 1).drop_last() =~= input@.take(i as int));
            assert(input@.take(i + 1).last() == c);
        }
        if c == separator {
            let part = input.substring_char(from, i).to_owned();
            parts.push(part);
            from = i + 1;
            proof {
                assert(texts(parts@) =~= done);
                assert(input@.subrange(from as int, i + 1) =~= Seq::<char>::empty());
            }
        } else {
            proof {
                assert(input@.subrange(from as int, i + 1) =~= input@.subrange(
                    from as int,
                    i as int,
                ).push(c));
                assert(done.last() == input@.subrange(from as int, i as int));
                assert(done.update(done.len() - 1, done.last().push(c)) =~= before.push(
                    input@.subrange(from as int, i + 1),
                ));
            }
        }
        i += 1;
    }
    proof {
        assert(input@.take(len as int) =~= input@);
    }
    let ghost before = texts(parts@);
    let part = input.substring_char(from, len).to_owned();
    parts.push(part);
    assert(texts(parts@) =~= before.push(input@.subrange(from as int, len as int)));
    parts
}

/// The server that a text describes: its address alone, or its address, a user name and a
/// credential, between bars.
pub open spec fn ice_server_of(input: Seq<char>, server: IceServer) -> bool {
    let parts = fields(input, '|');
    ||| parts.len() == 1 && server.url@ == parts[0] && server.username is None
        && server.credential is None
    ||| parts.len() == 3 && server.url@ == parts[0] && (server.username matches Some(u) && u@
        == parts[1]) && (server.credential matches Some(c) && c@ == parts[2])
}

/// Reads the description of a server.
pub fn parse_rtc_ice_server(input: &str) -> (result: Result<IceServer, String>)
    ensures
        result is Ok <==> fields(input@, '|').len() == 1 || fields(input@, '|').len() == 3,
        match result {
            Ok(server) => ice_server_of(input@, server),
            Err(message) => message@ == "Unexpected ice server: "@ + input@,
        },
{
    let parts = split_fields(input, '|');
    proof {
        assert(parts.len() == fields(input@, '|').len());
        assert forall|i: int| 0 <= i < parts.len() implies parts[i]@ == #[trigger] fields(
            input@,
            '|',
        )[i] by {
            assert(texts(parts@)[i] == parts[i]@);
        }
    }
    if parts.len() == 1 {
        Ok(IceServer { url: parts[0].clone(), username: None, credential: None })
    } else if parts.len() == 3 {
        Ok(
            IceServer {
                url: parts[0].clone(),
                username: Some(parts[1].clone()),
                credential: Some(parts[2].clone()),
            },
        )
    } else {
        let mut message = "Unexpected ice server: ".to_owned();
        message.append(input);
        Err(message)
    }
}

/// The fields of a text, with the separators between them.
pub open spec fn joined(parts: Seq<Seq<char>>, separator: char) -> Seq<char>
    decreases parts.len(),
{
    if parts.len() == 0 {
        Seq::empty()
    } else if parts.len() == 1 {
        parts[0]
    } else {
        joined(parts.drop_last(), separator).push(separator) + parts.last()
    }
}

/// Nothing but the separators is lost when a text is split.
pub proof fn lemma_fields_join_back(text: Seq<char>, separator: char)
    ensures
        joined(fields(text, separator), separator) == text,
    decreases text.len(),
{
    if text.len() > 0 {
        let rest = text.drop_last();
        lemma_fields_join_back(rest, separator);
        lemma_fields_nonempty(rest, separator);
        let before = fields(rest, separator);
        let all = fields(text, separator);
        if text.last() == separator {
            assert(all.drop_last() =~= before);
            assert(joined(all, separator) =~= joined(before, separator).push(separator));
        } else {
            assert(all.drop_last() =~= before.drop_last());
            assert(joined(all, separator) =~= joined(before, separator).push(text.last()));
        }
        assert(rest.push(text.last()) =~= text);
    } else {
        assert(fields(text, separator).len() == 1);
        assert(joined(fields(text, separator), separator) =~= text);
    }
}

/// No field holds a separator.
pub proof fn lemma_fields_hold_no_separator(text: Seq<char>, separator: char)
    ensures
        forall|i: int|
            0 <= i < fields(text, separator).len() ==> !(#[trigger] fields(
                text,
                separator,
            )[i]).contains(separator),
    decreases text.len(),
{
    if text.len() > 0 {
        let rest = text.drop_last();
        let before = fields(rest, separator);
        let all = fields(text, separator);
        lemma_fields_hold_no_separator(rest, separator);
        lemma_fields_nonempty(rest, separator);
        assert forall|i: int| 0 <= i < all.len() implies !(#[trigger] all[i]).contains(separator) by {
            if text.last() == separator {
                if i < before.len() {
                    assert(all[i] == before[i]);
                }
            } else if i < before.len() - 1 {
                assert(all[i] == before[i]);
            } else {
                let last = before[before.len() - 1];
                if all[i].contains(separator) {
                    let k = choose|k: int| 0 <= k < all[i].len() && all[i][k] == separator;
                    assert(all[i] == last.push(text.last()));
                    assert(last[k] == separator);
                    assert(last.contains(separator));
                }
            }
        }
    }
}

/// A server is described by its address alone, or by its address, a user name and a credential, in this
/// order and with bars between them; none of them holds a bar.
pub proof fn lemma_ice_server_described(input: Seq<char>, server: IceServer)
    requires
        ice_server_of(input, server),
    ensures
        !server.url@.contains('|'),
        server.username is Some <==> server.credential is Some,
        server.username is None ==> input == server.url@,
        server.username matches Some(u) ==> (server.credential matches Some(c) && input
            == server.url@.push('|') + u@.push('|') + c@ && !u@.contains('|') && !c@.contains('|')),
{
    let parts = fields(input, '|');
    lemma_fields_join_back(input, '|');
    lemma_fields_hold_no_separator(input, '|');
    assert(!parts[0].contains('|'));
    if parts.len() == 3 {
        assert(!parts[1].contains('|') && !parts[2].contains('|'));
        let two = parts.drop_last();
        let one = two.drop_last();
        assert(joined(one, '|') == parts[0]);
        assert(joined(two, '|') == joined(one, '|').push('|') + two.last());
        assert(joined(parts, '|') =~= parts[0].push('|') + parts[1].push('|') + parts[2]);
    }
}

} // verus!
