//! Model provider selection and endpoint normalisation.

use vstd::prelude::*;

use crate::text::{
    chars_of, ends_with, str_eq, has_suffix_at, push_str, strip_trailing, string_from, string_of_range,
    trim, trim_bounds,
};

verus! {

/// A model offered by a provider.
#[derive(Debug, Clone)]
pub struct ModelItem {
    pub id: String,
    pub context_window: usize,
    pub max_tokens: Option<usize>,
}

/// A configured model provider.
#[derive(Debug, Clone)]
pub struct ModelProvider {
    pub id: String,
    pub name: String,
    pub endpoint: String,
    pub api_key: String,
    pub api_format: String,
    pub models: Vec<ModelItem>,
    pub enabled: bool,
}

/// The provider offers a model with this id.
pub open spec fn offers(p: ModelProvider, model_id: Seq<char>) -> bool {
    exists|i: int| 0 <= i < p.models@.len() && (#[trigger] p.models@[i]).id@ == model_id
}

/// An enabled provider offering the model.
pub open spec fn serves(p: ModelProvider, model_id: Seq<char>) -> bool {
    p.enabled && offers(p, model_id)
}

/// An enabled provider with this id offering the model.
pub open spec fn serves_as(p: ModelProvider, model_id: Seq<char>, pid: Seq<char>) -> bool {
    serves(p, model_id) && p.id@ == pid
}

fn offers_model(p: &ModelProvider, model_id: &str) -> (b: bool)
    ensures
        b == offers(*p, model_id@),
{
    let mut k: usize = 0;
    while k < p.models.len()
        invariant
            k <= p.models.len(),
            forall|i: int| 0 <= i < k ==> (#[trigger] p.models@[i]).id@ != model_id@,
        decreases p.models.len() - k,
    {
        if str_eq(p.models[k].id.as_str(), model_id) {
            return true;
        }
        k = k + 1;
    }
    false
}

/// Picks the provider for a request: the enabled provider with id
/// `provider_id` when it offers the model, else the first enabled provider
/// offering it (an index into `providers`); an error naming the model when
/// there is none.
pub fn provider_for_model(providers: &[ModelProvider], model_id: &str, provider_id: Option<&str>) -> (r: Result<usize, String>)
    ensures
        match r {
            Ok(i) => {
                &&& i < providers@.len()
                &&& serves(providers@[i as int], model_id@)
                &&& (match provider_id {
                    Some(pid) => if exists|j: int| 0 <= j < providers@.len() && #[trigger] serves_as(providers@[j], model_id@, pid@) {
                        serves_as(providers@[i as int], model_id@, pid@) && forall|j: int| 0 <= j < i ==> !#[trigger] serves_as(providers@[j], model_id@, pid@)
                    } else {
                        forall|j: int| 0 <= j < i ==> !serves(#[trigger] providers@[j], model_id@)
                    },
                    None => forall|j: int| 0 <= j < i ==> !serves(#[trigger] providers@[j], model_id@),
                })
            },
            Err(e) => {
                &&& forall|j: int| 0 <= j < providers@.len() ==> !serves(#[trigger] providers@[j], model_id@)
                &&& e@ == "未找到包含模型「"@ + model_id@ + "」且已启用的服务商，请检查设置。"@
            },
        },
{
    match provider_id {
        Some(pid) => {
            let mut k: usize = 0;
            while k < providers.len()
                invariant
                    k <= providers.len(),
                    provider_id == Some(pid),
                    forall|j: int| 0 <= j < k ==> !#[trigger] serves_as(providers@[j], model_id@, pid@),
                decreases providers.len() - k,
            {
                let p = &providers[k];
                if p.enabled && str_eq(p.id.as_str(), pid) && offers_model(p, model_id) {
                    assert(serves_as(providers@[k as int], model_id@, pid@));
                    return Ok(k);
                }
                k = k + 1;
            }
        },
        None => {},
    }
    let mut k: usize = 0;
    while k < providers.len()
        invariant
            k <= providers.len(),
            forall|j: int| 0 <= j < k ==> !serves(#[trigger] providers@[j], model_id@),
            provider_id matches Some(pid) ==> forall|j: int| 0 <= j < providers@.len() ==> !#[trigger] serves_as(providers@[j], model_id@, pid@),
        decreases providers.len() - k,
    {
        let p = &providers[k];
        if p.enabled && offers_model(p, model_id) {
            return Ok(k);
        }
        k = k + 1;
    }
    let mut m: Vec<char> = Vec::new();
    push_str(&mut m, "未找到包含模型「");
    push_str(&mut m, model_id);
    push_str(&mut m, "」且已启用的服务商，请检查设置。");
    Err(string_from(m.as_slice()))
}

/// The first model of the first enabled provider that has any.
pub open spec fn first_enabled_spec(providers: Seq<ModelProvider>) -> Option<Seq<char>>
    decreases providers.len(),
{
    if providers.len() == 0 {
        None
    } else if providers[0].enabled && providers[0].models@.len() > 0 {
        Some(providers[0].models@[0].id@)
    } else {
        first_enabled_spec(providers.drop_first())
    }
}

/// Id of the first model of the first enabled provider that lists one.
pub fn first_enabled_model(providers: &[ModelProvider]) -> (r: Option<String>)
    ensures
        match first_enabled_spec(providers@) {
            Some(id) => r matches Some(x) && x@ == id,
            None => r is None,
        },
{
    let mut k: usize = 0;
    assert(providers@.skip(0) =~= providers@);
    while k < providers.len()
        invariant
            k <= providers.len(),
            first_enabled_spec(providers@) == first_enabled_spec(providers@.skip(k as int)),
        decreases providers.len() - k,
    {
        proof {
            assert(providers@.skip(k as int).drop_first() =~= providers@.skip(k + 1));
            assert(providers@.skip(k as int)[0] == providers@[k as int]);
        }
        let p = &providers[k];
        if p.enabled && p.models.len() > 0 {
            return Some(p.models[0].id.clone());
        }
        k = k + 1;
    }
    proof {
        assert(providers@.skip(k as int).len() == 0);
    }
    None
}

/// Suffixes of API paths that a base URL must not carry, in the order they
/// are tried.
pub open spec fn strip_api_path(c: Seq<char>) -> Seq<char> {
    if ends_with(c, "/chat/completions"@) {
        c.take(c.len() - 17)
    } else if ends_with(c, "/v1/chat/completions"@) {
        c.take(c.len() - 20)
    } else if ends_with(c, "/v1/messages"@) {
        c.take(c.len() - 12)
    } else if ends_with(c, "/messages"@) {
        c.take(c.len() - 9)
    } else {
        c
    }
}

/// What [`sanitize_endpoint`] makes of an endpoint: trimmed, trailing
/// slashes dropped, one known API path removed, trailing slashes dropped.
pub open spec fn sanitized(e: Seq<char>) -> Seq<char> {
    strip_trailing(strip_api_path(strip_trailing(trim(e), '/')), '/')
}

fn trailing_slash_end(s: &Vec<char>, lo: usize, hi: usize) -> (b: usize)
    requires
        lo <= hi <= s.len(),
    ensures
        lo <= b <= hi,
        s@.subrange(lo as int, b as int) == strip_trailing(s@.subrange(lo as int, hi as int), '/'),
{
    let mut b = hi;
    while b > lo && s[b - 1] == '/'
        invariant
            lo <= b <= hi <= s.len(),
            strip_trailing(s@.subrange(lo as int, hi as int), '/') == strip_trailing(s@.subrange(lo as int, b as int), '/'),
        decreases b - lo,
    {
        assert(s@.subrange(lo as int, b as int).drop_last() =~= s@.subrange(lo as int, b - 1));
        b = b - 1;
    }
    b
}

/// Strips API-path suffixes from an endpoint so it becomes a base URL.
pub fn sanitize_endpoint(endpoint: &str) -> (r: String)
    ensures
        r@ == sanitized(endpoint@),
{
    let sv = chars_of(endpoint);
    let s = &sv;
    let (a, b0) = trim_bounds(s, 0, s.len());
    proof {
        assert(s@.subrange(0, s@.len() as int) =~= s@);
    }
    let b = trailing_slash_end(s, a, b0);
    let ghost c = s@.subrange(a as int, b as int);
    let p1 = chars_of("/chat/completions");
    let p2 = chars_of("/v1/chat/completions");
    let p3 = chars_of("/v1/messages");
    let p4 = chars_of("/messages");
    proof {
        reveal_strlit("/chat/completions");
        reveal_strlit("/v1/chat/completions");
        reveal_strlit("/v1/messages");
        reveal_strlit("/messages");
    }
    let e = if has_suffix_at(s, a, b, p1.as_slice()) {
        b - 17
    } else if has_suffix_at(s, a, b, p2.as_slice()) {
        b - 20
    } else if has_suffix_at(s, a, b, p3.as_slice()) {
        b - 12
    } else if has_suffix_at(s, a, b, p4.as_slice()) {
        b - 9
    } else {
        b
    };
    proof {
        assert(s@.subrange(a as int, e as int) =~= strip_api_path(c));
    }
    let f = trailing_slash_end(s, a, e);
    string_of_range(s, a, f)
}

} // verus!
