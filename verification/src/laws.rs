use crate::command::{spec_apply, spec_command_from_frame, spec_from_name, SpecCommand};
use crate::frame::{encodable, lemma_parse_serialize, spec_parse, spec_serialize, SpecFrame};
use crate::handler::spec_respond;
use crate::requester::{get_name_bytes, set_name_bytes, spec_get_request, spec_set_request};
use crate::text::uppercase;
use vstd::prelude::*;
use vstd::utf8::{
    decode_utf8, encode_utf8, encode_utf8_decode_utf8, encode_utf8_valid_utf8,
    is_ascii_chars_encode_utf8, valid_utf8,
};

verus! {

/// A GET that follows a SET of the same key reads back the value set,
/// whatever the store held before.
pub proof fn law_get_after_set(db: Map<Seq<char>, Seq<u8>>, key: Seq<char>, value: Seq<u8>)
    ensures
        ({
            let after_set = spec_apply(db, SpecCommand::SetCmd { key, value });
            &&& after_set.1 == SpecFrame::Simple("OK"@)
            &&& spec_apply(after_set.0, SpecCommand::Get { key }) == (
                after_set.0,
                SpecFrame::Bulk(value),
            )
        }),
{
}

/// A SET leaves what a GET of any other key reads unchanged.
pub proof fn law_set_keeps_other_keys(
    db: Map<Seq<char>, Seq<u8>>,
    key: Seq<char>,
    value: Seq<u8>,
    other: Seq<char>,
)
    requires
        other != key,
    ensures
        spec_apply(spec_apply(db, SpecCommand::SetCmd { key, value }).0, SpecCommand::Get { key: other }).1
            == spec_apply(db, SpecCommand::Get { key: other }).1,
{
}

/// A GET changes nothing in the store.
pub proof fn law_get_keeps_store(db: Map<Seq<char>, Seq<u8>>, key: Seq<char>)
    ensures
        spec_apply(db, SpecCommand::Get { key }).0 == db,
{
}

/// The command names, as the bytes of the requests, read as "GET" and "SET".
proof fn lemma_command_names()
    ensures
        valid_utf8(get_name_bytes()),
        decode_utf8(get_name_bytes()) == "GET"@,
        valid_utf8(set_name_bytes()),
        decode_utf8(set_name_bytes()) == "SET"@,
{
    reveal_strlit("GET");
    reveal_strlit("SET");
    is_ascii_chars_encode_utf8("GET"@);
    is_ascii_chars_encode_utf8("SET"@);
    assert(encode_utf8("GET"@) =~= get_name_bytes());
    assert(encode_utf8("SET"@) =~= set_name_bytes());
    encode_utf8_valid_utf8("GET"@);
    encode_utf8_valid_utf8("SET"@);
    encode_utf8_decode_utf8("GET"@);
    encode_utf8_decode_utf8("SET"@);
}

/// The server reads the client's requests as the commands they ask for,
/// given that upper-casing leaves the names "GET" and "SET" as they are,
/// which `upper_case_command_names` establishes.
pub proof fn law_requests_are_commands(db: Map<Seq<char>, Seq<u8>>, key: Seq<char>, value: Seq<u8>)
    requires
        uppercase("GET"@) == "GET"@,
        uppercase("SET"@) == "SET"@,
    ensures
        spec_respond(db, spec_set_request(key, value)) == spec_apply(
            db,
            SpecCommand::SetCmd { key, value },
        ),
        spec_respond(db, spec_get_request(key)) == spec_apply(db, SpecCommand::Get { key }),
{
    lemma_command_names();
    encode_utf8_valid_utf8(key);
    encode_utf8_decode_utf8(key);
    let set_parts = seq![
        SpecFrame::Bulk(set_name_bytes()),
        SpecFrame::Bulk(encode_utf8(key)),
        SpecFrame::Bulk(value),
    ];
    assert(set_parts.drop_first() =~= seq![SpecFrame::Bulk(encode_utf8(key)), SpecFrame::Bulk(value)]);
    assert(set_parts.drop_first().drop_first() =~= seq![SpecFrame::Bulk(value)]);
    assert(set_parts.drop_first().drop_first().drop_first() =~= Seq::<SpecFrame>::empty());
    let get_parts = seq![SpecFrame::Bulk(get_name_bytes()), SpecFrame::Bulk(encode_utf8(key))];
    assert(get_parts.drop_first() =~= seq![SpecFrame::Bulk(encode_utf8(key))]);
    assert(get_parts.drop_first().drop_first() =~= Seq::<SpecFrame>::empty());
    assert("GET"@ != "SET"@) by {
        reveal_strlit("GET");
        reveal_strlit("SET");
        assert("GET"@[0] != "SET"@[0]);
    }
}

/// The client's requests can travel over the wire when the key and value
/// fit the lengths a reader accepts.
pub proof fn law_requests_encodable(key: Seq<char>, value: Seq<u8>)
    requires
        encode_utf8(key).len() <= i64::MAX,
        encode_utf8(key).len() <= usize::MAX,
        value.len() <= i64::MAX,
        value.len() <= usize::MAX,
    ensures
        encodable(spec_get_request(key)),
        encodable(spec_set_request(key, value)),
{
    let g = seq![SpecFrame::Bulk(get_name_bytes()), SpecFrame::Bulk(encode_utf8(key))];
    assert forall|i: int| 0 <= i < g.len() implies encodable(#[trigger] g[i]) by {}
    let s = seq![
        SpecFrame::Bulk(set_name_bytes()),
        SpecFrame::Bulk(encode_utf8(key)),
        SpecFrame::Bulk(value),
    ];
    assert forall|i: int| 0 <= i < s.len() implies encodable(#[trigger] s[i]) by {}
}

/// Over the wire: a server that reads the bytes of a SET request and then
/// those of a GET request of the same key answers the GET with the value
/// set (the premise on upper-casing is what `upper_case_command_names`
/// establishes).
pub proof fn law_get_after_set_over_wire(
    db: Map<Seq<char>, Seq<u8>>,
    key: Seq<char>,
    value: Seq<u8>,
)
    requires
        uppercase("GET"@) == "GET"@,
        uppercase("SET"@) == "SET"@,
        encode_utf8(key).len() <= i64::MAX,
        encode_utf8(key).len() <= usize::MAX,
        value.len() <= i64::MAX,
        value.len() <= usize::MAX,
    ensures
        ({
            let set_bytes = spec_serialize(spec_set_request(key, value));
            let get_bytes = spec_serialize(spec_get_request(key));
            let set_read = spec_parse(set_bytes, 0);
            let get_read = spec_parse(get_bytes, 0);
            &&& set_read == (Ok::<SpecFrame, crate::frame::Error>(spec_set_request(key, value)), set_bytes.len() as int)
            &&& get_read == (Ok::<SpecFrame, crate::frame::Error>(spec_get_request(key)), get_bytes.len() as int)
            &&& spec_respond(spec_respond(db, spec_set_request(key, value)).0, spec_get_request(key)).1
                == SpecFrame::Bulk(value)
        }),
{
    law_requests_encodable(key, value);
    let set_bytes = spec_serialize(spec_set_request(key, value));
    let get_bytes = spec_serialize(spec_get_request(key));
    assert(set_bytes.subrange(0, set_bytes.len() as int) =~= set_bytes);
    assert(get_bytes.subrange(0, get_bytes.len() as int) =~= get_bytes);
    lemma_parse_serialize(spec_set_request(key, value), set_bytes, 0);
    lemma_parse_serialize(spec_get_request(key), get_bytes, 0);
    law_requests_are_commands(db, key, value);
    let after = spec_apply(db, SpecCommand::SetCmd { key, value }).0;
    law_requests_are_commands(after, key, value);
    law_get_after_set(db, key, value);
}

/// A request that is no command changes nothing in the store and is
/// answered with an error.
pub proof fn law_invalid_request_keeps_store(db: Map<Seq<char>, Seq<u8>>, request: SpecFrame)
    requires
        spec_command_from_frame(request) is Err,
    ensures
        spec_respond(db, request).0 == db,
        spec_respond(db, request).1 is Error,
{
}

/// A command is read only from a request with exactly its parts: a GET from
/// its name and one key, a SET from its name, a key and a value; a request
/// with fewer or more parts is refused.
pub proof fn law_commands_have_exact_parts(parts: Seq<SpecFrame>)
    ensures
        spec_command_from_frame(SpecFrame::Array(parts)) matches Ok(c) ==> {
            &&& (c is Get ==> parts.len() == 2)
            &&& (c is SetCmd ==> parts.len() == 3)
        },
        spec_from_name("GET"@, parts) is Ok ==> parts.len() == 1,
        spec_from_name("SET"@, parts) is Ok ==> parts.len() == 2,
{
    assert("GET"@ != "SET"@) by {
        reveal_strlit("GET");
        reveal_strlit("SET");
        assert("GET"@[0] != "SET"@[0]);
    }
}

} // verus!
