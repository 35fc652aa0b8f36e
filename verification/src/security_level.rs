//! The security level that a request asks for.
//!
//! It is named by an extension. A mandatory one is honoured or the request is
//! refused; an optional one that is not understood is passed over.
use crate::etsi::{ext_value, Etsi014KeyRequest, ExtValue, Extensions};
use crate::security::{only_tokens_name_levels, SecurityLevel};
use crate::text::join2;
use vstd::prelude::*;
use vstd::string::*;

verus! {

/// Name of the extension that names the level.
pub const EXT_KEY: &'static str = "security_level";

/// A text in quotes, as it is shown in messages.
pub uninterp spec fn quoted_text(s: Seq<char>) -> Seq<char>;

/// The `Debug` form of `str`, by `format!`: the text in double quotes, with what
/// cannot be shown escaped. It depends on the text alone.
#[verifier::external_body]
fn quoted(s: &str) -> (r: String)
    ensures
        r@ == quoted_text(s@),
{
    format!("{s:?}")
}

/// What a list of mandatory extensions says of the level: the first that holds one
/// decides, whether it is a text or not.
pub open spec fn first_value(list: Seq<Extensions>) -> Option<ExtValue>
    decreases list.len(),
{
    if list.len() == 0 {
        None
    } else {
        match ext_value(list[0].entries@, EXT_KEY@) {
            Some(v) => Some(v),
            None => first_value(list.drop_first()),
        }
    }
}

/// What a list of optional extensions says of the level: the first text. What is no
/// text is passed over.
pub open spec fn first_text(list: Seq<Extensions>) -> Option<Seq<char>>
    decreases list.len(),
{
    if list.len() == 0 {
        None
    } else {
        match ext_value(list[0].entries@, EXT_KEY@) {
            Some(ExtValue::Text(t)) => Some(t@),
            _ => first_text(list.drop_first()),
        }
    }
}

pub open spec fn demanded_in(ext: Option<Vec<Extensions>>) -> Option<ExtValue> {
    match ext {
        Some(list) => first_value(list@),
        None => None,
    }
}

pub open spec fn wished_in(ext: Option<Vec<Extensions>>) -> Option<Seq<char>> {
    match ext {
        Some(list) => first_text(list@),
        None => None,
    }
}

fn find_value(ext: &Option<Vec<Extensions>>) -> (r: Option<&ExtValue>)
    ensures
        match r {
            Some(v) => demanded_in(*ext) == Some(*v),
            None => demanded_in(*ext) is None,
        },
{
    let list = match ext {
        Some(l) => l,
        None => {
            return None;
        },
    };
    let n: usize = list.len();
    let mut i: usize = 0;
    assert(list@.skip(0) =~= list@);
    while i < n
        invariant
            n == list@.len(),
            i <= n,
            *ext == Some(*list),
            first_value(list@) == first_value(list@.skip(i as int)),
        decreases n - i,
    {
        assert(list@.skip(i as int).drop_first() =~= list@.skip(i + 1));
        assert(list@.skip(i as int)[0] == list@[i as int]);
        if let Some(v) = list[i].value(EXT_KEY) {
            return Some(v);
        }
        i = i + 1;
    }
    None
}

fn find_text(ext: &Option<Vec<Extensions>>) -> (r: Option<&str>)
    ensures
        match r {
            Some(t) => wished_in(*ext) == Some(t@),
            None => wished_in(*ext) is None,
        },
{
    let list = match ext {
        Some(l) => l,
        None => {
            return None;
        },
    };
    let n: usize = list.len();
    let mut i: usize = 0;
    assert(list@.skip(0) =~= list@);
    while i < n
        invariant
            n == list@.len(),
            i <= n,
            *ext == Some(*list),
            first_text(list@) == first_text(list@.skip(i as int)),
        decreases n - i,
    {
        assert(list@.skip(i as int).drop_first() =~= list@.skip(i + 1));
        assert(list@.skip(i as int)[0] == list@[i as int]);
        if let Some(ExtValue::Text(t)) = list[i].value(EXT_KEY) {
            return Some(t.as_str());
        }
        i = i + 1;
    }
    None
}

/// The level that a request asks for: an error if a mandatory extension holds
/// anything but the name of a level, nothing if no level is named.
pub open spec fn asked_level(req: Etsi014KeyRequest) -> Result<Option<SecurityLevel>, Seq<char>> {
    match demanded_in(req.extension_mandatory) {
        Some(ExtValue::Text(tok)) => match SecurityLevel::named(tok@) {
            Some(l) => Ok(Some(l)),
            None => Err("unsupported mandatory security_level: "@ + quoted_text(tok@)),
        },
        Some(ExtValue::Other) => Err("unsupported mandatory security_level: not a string"@),
        None => match wished_in(req.extension_optional) {
            Some(tok) => Ok(SecurityLevel::named(tok)),
            None => Ok(None),
        },
    }
}

pub open spec fn level_result<T>(r: Result<T, String>) -> Result<T, Seq<char>> {
    match r {
        Ok(l) => Ok(l),
        Err(m) => Err(m@),
    }
}

pub fn requested(req: &Etsi014KeyRequest) -> (r: Result<Option<SecurityLevel>, String>)
    ensures
        level_result(r) == asked_level(*req),
{
    match find_value(&req.extension_mandatory) {
        Some(ExtValue::Text(tok)) => {
            return match SecurityLevel::from_token(tok.as_str()) {
                Some(l) => Ok(Some(l)),
                None => Err(
                    join2("unsupported mandatory security_level: ", quoted(tok.as_str()).as_str()),
                ),
            };
        },
        Some(ExtValue::Other) => {
            return Err("unsupported mandatory security_level: not a string".to_owned());
        },
        None => {},
    }
    if let Some(tok) = find_text(&req.extension_optional) {
        return Ok(SecurityLevel::from_token(tok));
    }
    Ok(None)
}

/// As [`requested`], with a level for requests that name none.
pub fn resolve(req: &Etsi014KeyRequest, default: SecurityLevel) -> (r: Result<SecurityLevel, String>)
    ensures
        level_result(r) == (match asked_level(*req) {
            Ok(Some(l)) => Ok(l),
            Ok(None) => Ok(default),
            Err(m) => Err(m),
        }),
{
    match requested(req) {
        Ok(Some(l)) => Ok(l),
        Ok(None) => Ok(default),
        Err(m) => Err(m),
    }
}

/// A mandatory level is honoured or the request is refused, whatever else it says.
pub proof fn mandatory_level_decides(req: Etsi014KeyRequest)
    requires
        demanded_in(req.extension_mandatory) is Some,
    ensures
        match demanded_in(req.extension_mandatory)->0 {
            ExtValue::Text(tok) => match SecurityLevel::named(tok@) {
                Some(l) => asked_level(req) == Ok::<_, Seq<char>>(Some(l)),
                None => asked_level(req) is Err,
            },
            ExtValue::Other => asked_level(req) is Err,
        },
{
}

/// A level that stands among the mandatory extensions, in whatever form, is never
/// passed over for a default.
pub proof fn mandatory_level_is_not_passed_over(list: Vec<Extensions>, i: int)
    requires
        0 <= i < list@.len(),
        ext_value(list@[i].entries@, EXT_KEY@) is Some,
    ensures
        demanded_in(Some(list)) is Some,
{
    lemma_value_is_found(list@, i);
}

proof fn lemma_value_is_found(list: Seq<Extensions>, i: int)
    requires
        0 <= i < list.len(),
        ext_value(list[i].entries@, EXT_KEY@) is Some,
    ensures
        first_value(list) is Some,
    decreases list.len(),
{
    if i > 0 {
        assert(list.drop_first()[i - 1] == list[i]);
        lemma_value_is_found(list.drop_first(), i - 1);
    }
}

/// Optional extensions never make a request fail.
pub proof fn optional_level_is_never_refused(req: Etsi014KeyRequest)
    requires
        demanded_in(req.extension_mandatory) is None,
    ensures
        asked_level(req) is Ok,
{
}

/// Under a name stands what its first entry holds.
proof fn lemma_ext_value(entries: Seq<(String, ExtValue)>, name: Seq<char>, i: int)
    requires
        0 <= i < entries.len(),
        entries[i].0@ == name,
        forall|j: int| 0 <= j < i ==> (#[trigger] entries[j]).0@ != name,
    ensures
        ext_value(entries, name) == Some(entries[i].1),
    decreases entries.len(),
{
    if i > 0 {
        let rest = entries.drop_first();
        assert(entries[0].0@ != name);
        assert(rest[i - 1] == entries[i]);
        assert forall|j: int| 0 <= j < i - 1 implies (#[trigger] rest[j]).0@ != name by {
            assert(entries[j + 1].0@ != name);
        }
        lemma_ext_value(rest, name, i - 1);
    }
}

proof fn lemma_first_value(list: Seq<Extensions>, i: int)
    requires
        0 <= i < list.len(),
        ext_value(list[i].entries@, EXT_KEY@) is Some,
        forall|j: int| 0 <= j < i ==> ext_value((#[trigger] list[j]).entries@, EXT_KEY@) is None,
    ensures
        first_value(list) == ext_value(list[i].entries@, EXT_KEY@),
    decreases list.len(),
{
    if i > 0 {
        let rest = list.drop_first();
        assert(ext_value(list[0].entries@, EXT_KEY@) is None);
        assert(rest[i - 1] == list[i]);
        assert forall|j: int| 0 <= j < i - 1 implies ext_value(
            (#[trigger] rest[j]).entries@,
            EXT_KEY@,
        ) is None by {
            assert(ext_value(list[j + 1].entries@, EXT_KEY@) is None);
        }
        lemma_first_value(rest, i - 1);
    }
}

proof fn lemma_no_value(list: Seq<Extensions>)
    requires
        forall|j: int|
            0 <= j < list.len() ==> ext_value((#[trigger] list[j]).entries@, EXT_KEY@) is None,
    ensures
        first_value(list) is None,
        first_text(list) is None,
    decreases list.len(),
{
    if list.len() > 0 {
        let rest = list.drop_first();
        assert(ext_value(list[0].entries@, EXT_KEY@) is None);
        assert forall|j: int| 0 <= j < rest.len() implies ext_value(
            (#[trigger] rest[j]).entries@,
            EXT_KEY@,
        ) is None by {
            assert(ext_value(list[j + 1].entries@, EXT_KEY@) is None);
        }
        lemma_no_value(rest);
    }
}

proof fn lemma_first_text(list: Seq<Extensions>, i: int)
    requires
        0 <= i < list.len(),
        ext_value(list[i].entries@, EXT_KEY@) matches Some(ExtValue::Text(_)),
        forall|j: int|
            0 <= j < i ==> !(ext_value((#[trigger] list[j]).entries@, EXT_KEY@) matches Some(
                ExtValue::Text(_),
            )),
    ensures
        first_text(list) == Some(ext_value(list[i].entries@, EXT_KEY@)->0->Text_0@),
    decreases list.len(),
{
    if i > 0 {
        let rest = list.drop_first();
        assert(!(ext_value(list[0].entries@, EXT_KEY@) matches Some(ExtValue::Text(_))));
        assert(rest[i - 1] == list[i]);
        assert forall|j: int| 0 <= j < i - 1 implies !(ext_value(
            (#[trigger] rest[j]).entries@,
            EXT_KEY@,
        ) matches Some(ExtValue::Text(_))) by {
            assert(!(ext_value(list[j + 1].entries@, EXT_KEY@) matches Some(ExtValue::Text(_))));
        }
        lemma_first_text(rest, i - 1);
    }
}

/// A request that demands a level gets it, whatever it wishes for besides: the first
/// mandatory extension that speaks of a level decides. A demand that names no level
/// is an error.
pub proof fn demanded_level_is_the_one_asked_for(
    req: Etsi014KeyRequest,
    list: Vec<Extensions>,
    i: int,
    e: int,
)
    requires
        req.extension_mandatory == Some(list),
        0 <= i < list@.len(),
        forall|j: int| 0 <= j < i ==> ext_value((#[trigger] list@[j]).entries@, EXT_KEY@) is None,
        0 <= e < list@[i].entries@.len(),
        list@[i].entries@[e].0@ == "security_level"@,
        forall|j: int|
            0 <= j < e ==> (#[trigger] list@[i].entries@[j]).0@ != "security_level"@,
    ensures
        match list@[i].entries@[e].1 {
            ExtValue::Text(t) => {
                &&& t@ == "strict_qkd"@ ==> asked_level(req) == Ok::<_, Seq<char>>(
                    Some(SecurityLevel::StrictQkd),
                )
                &&& t@ == "qkd_prefer"@ ==> asked_level(req) == Ok::<_, Seq<char>>(
                    Some(SecurityLevel::QkdPrefer),
                )
                &&& t@ == "no_worry"@ ==> asked_level(req) == Ok::<_, Seq<char>>(
                    Some(SecurityLevel::NoWorry),
                )
                &&& t@ != "strict_qkd"@ && t@ != "qkd_prefer"@ && t@ != "no_worry"@
                    ==> asked_level(req) is Err
            },
            ExtValue::Other => asked_level(req) is Err,
        },
{
    lemma_ext_value(list@[i].entries@, EXT_KEY@, e);
    lemma_first_value(list@, i);
    if let ExtValue::Text(t) = list@[i].entries@[e].1 {
        only_tokens_name_levels(t@);
    }
}

/// A request that only wishes for a level gets it if the first text that speaks of
/// one names it, and asks for none otherwise. Without a word on it no level is asked
/// for.
pub proof fn wished_level_is_taken_if_understood(
    req: Etsi014KeyRequest,
    list: Vec<Extensions>,
    i: int,
    e: int,
)
    requires
        req.extension_mandatory matches Some(m) ==> forall|j: int|
            0 <= j < m@.len() ==> ext_value((#[trigger] m@[j]).entries@, EXT_KEY@) is None,
    ensures
        ({
            &&& req.extension_optional == Some(list)
            &&& 0 <= i < list@.len()
            &&& forall|j: int|
                0 <= j < i ==> !(ext_value((#[trigger] list@[j]).entries@, EXT_KEY@) matches Some(
                    ExtValue::Text(_),
                ))
            &&& 0 <= e < list@[i].entries@.len()
            &&& list@[i].entries@[e].0@ == "security_level"@
            &&& forall|j: int|
                0 <= j < e ==> (#[trigger] list@[i].entries@[j]).0@ != "security_level"@
            &&& list@[i].entries@[e].1 is Text
        }) ==> {
            let t = list@[i].entries@[e].1->Text_0@;
            &&& t == "strict_qkd"@ ==> asked_level(req) == Ok::<_, Seq<char>>(
                Some(SecurityLevel::StrictQkd),
            )
            &&& t == "qkd_prefer"@ ==> asked_level(req) == Ok::<_, Seq<char>>(
                Some(SecurityLevel::QkdPrefer),
            )
            &&& t == "no_worry"@ ==> asked_level(req) == Ok::<_, Seq<char>>(
                Some(SecurityLevel::NoWorry),
            )
            &&& t != "strict_qkd"@ && t != "qkd_prefer"@ && t != "no_worry"@ ==> asked_level(req)
                == Ok::<Option<SecurityLevel>, Seq<char>>(None)
        },
        (req.extension_optional matches Some(o) ==> forall|j: int|
            0 <= j < o@.len() ==> ext_value((#[trigger] o@[j]).entries@, EXT_KEY@) is None)
            ==> asked_level(req) == Ok::<Option<SecurityLevel>, Seq<char>>(None),
{
    if let Some(m) = req.extension_mandatory {
        lemma_no_value(m@);
    }
    if req.extension_optional matches Some(o) && forall|j: int|
        0 <= j < o@.len() ==> ext_value((#[trigger] o@[j]).entries@, EXT_KEY@) is None {
        lemma_no_value(req.extension_optional->0@);
    }
    if ({
        &&& req.extension_optional == Some(list)
        &&& 0 <= i < list@.len()
        &&& forall|j: int|
            0 <= j < i ==> !(ext_value((#[trigger] list@[j]).entries@, EXT_KEY@) matches Some(
                ExtValue::Text(_),
            ))
        &&& 0 <= e < list@[i].entries@.len()
        &&& list@[i].entries@[e].0@ == "security_level"@
        &&& forall|j: int|
            0 <= j < e ==> (#[trigger] list@[i].entries@[j]).0@ != "security_level"@
        &&& list@[i].entries@[e].1 is Text
    }) {
        lemma_ext_value(list@[i].entries@, EXT_KEY@, e);
        lemma_first_text(list@, i);
        only_tokens_name_levels(list@[i].entries@[e].1->Text_0@);
        assert(wished_in(req.extension_optional) == Some(list@[i].entries@[e].1->Text_0@));
    }
}

} // verus!
