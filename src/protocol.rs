//! The wire protocol: request and response type codes, error codes, the
//! frames the broker writes, and the shape of a qualified function name.
use vstd::prelude::*;
use vstd::string::StringExecFns;
use crate::json::{Fields, Json, JsonView};

verus! {

pub const ERROR: u64 = 0;
pub const REGISTER_MODULE_REQUEST: u64 = 1;
pub const REGISTER_MODULE_RESPONSE: u64 = 2;
pub const FUNCTION_CALL_REQUEST: u64 = 3;
pub const FUNCTION_CALL_RESPONSE: u64 = 4;
pub const REGISTER_HOOK_REQUEST: u64 = 5;
pub const REGISTER_HOOK_RESPONSE: u64 = 6;
pub const TRIGGER_HOOK_REQUEST: u64 = 7;
pub const TRIGGER_HOOK_RESPONSE: u64 = 8;
pub const DECLARE_FUNCTION_REQUEST: u64 = 9;
pub const DECLARE_FUNCTION_RESPONSE: u64 = 10;

pub const MALFORMED_REQUEST: u64 = 0;
pub const INVALID_REQUEST_ID: u64 = 1;
pub const UNKNOWN_REQUEST: u64 = 2;
pub const UNREGISTERED_MODULE: u64 = 3;
pub const UNKNOWN_MODULE: u64 = 4;
pub const UNKNOWN_FUNCTION: u64 = 5;
pub const INVALID_MODULE_ID: u64 = 6;
pub const DUPLICATE_MODULE: u64 = 7;

/// `{requestId, type: ERROR, error}`.
pub open spec fn error_frame(request_id: Seq<char>, code: u64) -> JsonView {
    JsonView::Object(
        seq![
            ("requestId"@, JsonView::Str(request_id)),
            ("type"@, JsonView::PosInt(ERROR)),
            ("error"@, JsonView::PosInt(code)),
        ],
    )
}

/// `{requestId, type}`: the plain acknowledgement of a request.
pub open spec fn reply_frame(request_id: Seq<char>, kind: u64) -> JsonView {
    JsonView::Object(seq![("requestId"@, JsonView::Str(request_id)), ("type"@, JsonView::PosInt(kind))])
}

/// `{requestId, type: DECLARE_FUNCTION_RESPONSE, function}`.
pub open spec fn declare_reply_frame(request_id: Seq<char>, function: Seq<char>) -> JsonView {
    JsonView::Object(
        seq![
            ("requestId"@, JsonView::Str(request_id)),
            ("type"@, JsonView::PosInt(DECLARE_FUNCTION_RESPONSE)),
            ("function"@, JsonView::Str(function)),
        ],
    )
}

/// `{requestId, type: TRIGGER_HOOK_RESPONSE, hook, data}`: a hook delivered to a module.
pub open spec fn hook_frame(request_id: Seq<char>, hook: Seq<char>, data: JsonView) -> JsonView {
    JsonView::Object(
        seq![
            ("requestId"@, JsonView::Str(request_id)),
            ("type"@, JsonView::PosInt(TRIGGER_HOOK_RESPONSE)),
            ("hook"@, JsonView::Str(hook)),
            ("data"@, data),
        ],
    )
}

/// `{requestId, type: FUNCTION_CALL_RESPONSE, data}`: the answer to a call.
pub open spec fn call_reply_frame(request_id: Seq<char>, data: JsonView) -> JsonView {
    JsonView::Object(
        seq![
            ("requestId"@, JsonView::Str(request_id)),
            ("type"@, JsonView::PosInt(FUNCTION_CALL_RESPONSE)),
            ("data"@, data),
        ],
    )
}

fn member(key: &str, value: Json, rest: Fields) -> (r: Fields)
    ensures
        r@ == seq![(key@, value@)] + rest@,
{
    Fields::Cons(String::from_str(key), Box::new(value), Box::new(rest))
}

pub fn error_message(request_id: &str, code: u64) -> (r: Json)
    ensures
        r@ == error_frame(request_id@, code),
{
    let f = member(
        "requestId",
        Json::string(request_id),
        member("type", Json::uint(ERROR), member("error", Json::uint(code), Fields::Nil)),
    );
    assert(f@ =~= seq![
        ("requestId"@, JsonView::Str(request_id@)),
        ("type"@, JsonView::PosInt(ERROR)),
        ("error"@, JsonView::PosInt(code)),
    ]);
    Json::Object(f)
}

pub fn reply_message(request_id: &str, kind: u64) -> (r: Json)
    ensures
        r@ == reply_frame(request_id@, kind),
{
    let f = member("requestId", Json::string(request_id), member("type", Json::uint(kind), Fields::Nil));
    assert(f@ =~= seq![("requestId"@, JsonView::Str(request_id@)), ("type"@, JsonView::PosInt(kind))]);
    Json::Object(f)
}

pub fn declare_reply_message(request_id: &str, function: &str) -> (r: Json)
    ensures
        r@ == declare_reply_frame(request_id@, function@),
{
    let f = member(
        "requestId",
        Json::string(request_id),
        member(
            "type",
            Json::uint(DECLARE_FUNCTION_RESPONSE),
            member("function", Json::string(function), Fields::Nil),
        ),
    );
    assert(f@ =~= seq![
        ("requestId"@, JsonView::Str(request_id@)),
        ("type"@, JsonView::PosInt(DECLARE_FUNCTION_RESPONSE)),
        ("function"@, JsonView::Str(function@)),
    ]);
    Json::Object(f)
}

pub fn hook_message(request_id: &str, hook: &str, data: Json) -> (r: Json)
    ensures
        r@ == hook_frame(request_id@, hook@, data@),
{
    let ghost d = data@;
    let f = member(
        "requestId",
        Json::string(request_id),
        member(
            "type",
            Json::uint(TRIGGER_HOOK_RESPONSE),
            member("hook", Json::string(hook), member("data", data, Fields::Nil)),
        ),
    );
    assert(f@ =~= seq![
        ("requestId"@, JsonView::Str(request_id@)),
        ("type"@, JsonView::PosInt(TRIGGER_HOOK_RESPONSE)),
        ("hook"@, JsonView::Str(hook@)),
        ("data"@, d),
    ]);
    Json::Object(f)
}

pub fn call_reply_message(request_id: &str, data: Json) -> (r: Json)
    ensures
        r@ == call_reply_frame(request_id@, data@),
{
    let ghost d = data@;
    let f = member(
        "requestId",
        Json::string(request_id),
        member("type", Json::uint(FUNCTION_CALL_RESPONSE), member("data", data, Fields::Nil)),
    );
    assert(f@ =~= seq![
        ("requestId"@, JsonView::Str(request_id@)),
        ("type"@, JsonView::PosInt(FUNCTION_CALL_RESPONSE)),
        ("data"@, d),
    ]);
    Json::Object(f)
}

pub open spec fn is_ascii_alphanumeric(c: char) -> bool {
    ('a' <= c && c <= 'z') || ('A' <= c && c <= 'Z') || ('0' <= c && c <= '9')
}

/// A character allowed in the module part of `module.function`.
pub open spec fn is_module_name_char(c: char) -> bool {
    is_ascii_alphanumeric(c) || c == '-' || c == '_'
}

/// A character allowed in the function part of `module.function`.
pub open spec fn is_function_name_char(c: char) -> bool {
    is_ascii_alphanumeric(c) || c == '_'
}

/// `name` is `module.function` with its one dot at `dot`.
pub open spec fn splits_at(name: Seq<char>, dot: int) -> bool {
    &&& 0 <= dot < name.len()
    &&& name[dot] == '.'
    &&& forall|j: int| 0 <= j < dot ==> is_module_name_char(#[trigger] name[j])
    &&& forall|j: int| dot < j < name.len() ==> is_function_name_char(#[trigger] name[j])
}

/// A qualified name has at most one split.
pub proof fn lemma_split_unique(name: Seq<char>, d1: int, d2: int)
    requires
        splits_at(name, d1),
        splits_at(name, d2),
    ensures
        d1 == d2,
{
    if d1 < d2 {
        assert(is_module_name_char(name[d1]));
    } else if d2 < d1 {
        assert(is_module_name_char(name[d2]));
    }
}

/// The position of the dot of a qualified name.
pub open spec fn split_point(name: Seq<char>) -> int {
    choose|d: int| splits_at(name, d)
}

/// The module part of a qualified name.
pub open spec fn target_module(name: Seq<char>) -> Seq<char> {
    name.subrange(0, split_point(name))
}

/// The function part of a qualified name.
pub open spec fn target_function(name: Seq<char>) -> Seq<char> {
    name.subrange(split_point(name) + 1, name.len() as int)
}

/// Splits a qualified name `module.function`; `None` unless it holds exactly
/// one dot, the module part holds only ASCII letters, digits, `-` and `_`, and
/// the function part only ASCII letters, digits and `_`.
pub fn is_function_name(name: &str) -> (r: Option<(String, String)>)
    ensures
        r is Some <==> exists|dot: int| splits_at(name@, dot),
        r matches Some((m, f)) ==> splits_at(name@, m@.len() as int) && m@ == name@.subrange(
            0,
            m@.len() as int,
        ) && f@ == name@.subrange(m@.len() as int + 1, name@.len() as int),
{
    let n = name.unicode_len();
    let mut dot: usize = 0;
    while dot < n && is_module_char(name.get_char(dot))
        invariant
            n == name@.len(),
            dot <= n,
            forall|j: int| 0 <= j < dot ==> is_module_name_char(#[trigger] name@[j]),
        decreases n - dot,
    {
        dot += 1;
    }
    if dot == n || name.get_char(dot) != '.' {
        proof {
            assert forall|d: int| !splits_at(name@, d) by {
                if splits_at(name@, d) {
                    if d < dot {
                        assert(is_module_name_char(name@[d]));
                    } else if d > dot {
                        assert(is_module_name_char(name@[dot as int]));
                    }
                }
            }
        }
        return None;
    }
    let mut k: usize = dot + 1;
    while k < n
        invariant
            n == name@.len(),
            dot < k <= n,
            name@[dot as int] == '.',
            forall|j: int| 0 <= j < dot ==> is_module_name_char(#[trigger] name@[j]),
            forall|j: int| dot < j < k ==> is_function_name_char(#[trigger] name@[j]),
        decreases n - k,
    {
        if !is_function_char(name.get_char(k)) {
            proof {
                assert forall|d: int| !splits_at(name@, d) by {
                    if splits_at(name@, d) {
                        if d < dot {
                            assert(is_module_name_char(name@[d]));
                        } else if d > dot {
                            assert(is_module_name_char(name@[dot as int]));
                        } else {
                            assert(is_function_name_char(name@[k as int]));
                        }
                    }
                }
            }
            return None;
        }
        k += 1;
    }
    let module_part = String::from_str(name.substring_char(0, dot));
    let function_part = String::from_str(name.substring_char(dot + 1, n));
    assert(splits_at(name@, dot as int));
    Some((module_part, function_part))
}

fn is_module_char(c: char) -> (r: bool)
    ensures
        r == is_module_name_char(c),
{
    ('a' <= c && c <= 'z') || ('A' <= c && c <= 'Z') || ('0' <= c && c <= '9') || c == '-' || c
        == '_'
}

fn is_function_char(c: char) -> (r: bool)
    ensures
        r == is_function_name_char(c),
{
    ('a' <= c && c <= 'z') || ('A' <= c && c <= 'Z') || ('0' <= c && c <= '9') || c == '_'
}

/// The decimal digit `d` as text.
pub open spec fn digit_text(d: nat) -> Seq<char> {
    if d == 0 { "0"@ }
    else if d == 1 { "1"@ }
    else if d == 2 { "2"@ }
    else if d == 3 { "3"@ }
    else if d == 4 { "4"@ }
    else if d == 5 { "5"@ }
    else if d == 6 { "6"@ }
    else if d == 7 { "7"@ }
    else if d == 8 { "8"@ }
    else { "9"@ }
}

/// The decimal notation of `n`, without leading zeros.
pub open spec fn decimal(n: nat) -> Seq<char>
    decreases n,
{
    if n < 10 {
        digit_text(n)
    } else {
        decimal(n / 10) + digit_text(n % 10)
    }
}

fn digit_string(d: u128) -> (r: String)
    requires
        d < 10,
    ensures
        r@ == digit_text(d as nat),
{
    let s = if d == 0 { "0" }
    else if d == 1 { "1" }
    else if d == 2 { "2" }
    else if d == 3 { "3" }
    else if d == 4 { "4" }
    else if d == 5 { "5" }
    else if d == 6 { "6" }
    else if d == 7 { "7" }
    else if d == 8 { "8" }
    else { "9" };
    String::from_str(s)
}

/// `n` written in decimal.
pub fn decimal_string(n: u128) -> (r: String)
    ensures
        r@ == decimal(n as nat),
    decreases n,
{
    if n < 10 {
        digit_string(n)
    } else {
        let head = decimal_string(n / 10);
        let tail = digit_string(n % 10);
        head.concat(tail.as_str())
    }
}

} // verus!
