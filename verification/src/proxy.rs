//! Settings for running behind an outbound proxy, taken from the
//! conventional environment variables. Nothing here reads the environment:
//! the caller looks up the variables this module names, in its order, and
//! hands over what it found.
use vstd::prelude::*;
use crate::text::{chars_of, push_str_chars, string_of};

verus! {

/// The variables that may name a proxy, the most specific first: those for
/// one scheme before the catch-all.
pub open spec fn proxy_variable_names() -> Seq<Seq<char>> {
    seq!["HTTPS_PROXY"@, "https_proxy"@, "HTTP_PROXY"@, "http_proxy"@, "ALL_PROXY"@, "all_proxy"@]
}

/// The variables that may list hosts to reach without the proxy.
pub open spec fn no_proxy_variable_names() -> Seq<Seq<char>> {
    seq!["NO_PROXY"@, "no_proxy"@]
}

pub open spec fn str_views(s: Seq<&str>) -> Seq<Seq<char>> {
    s.map_values(|x: &str| x@)
}

/// The names of the proxy variables, in the order they are consulted.
pub fn proxy_variables() -> (r: Vec<&'static str>)
    ensures
        str_views(r@) == proxy_variable_names(),
{
    let r = vec!["HTTPS_PROXY", "https_proxy", "HTTP_PROXY", "http_proxy", "ALL_PROXY", "all_proxy"];
    assert(str_views(r@) =~= proxy_variable_names());
    r
}

/// The names of the variables listing hosts the proxy is bypassed for.
pub fn no_proxy_variables() -> (r: Vec<&'static str>)
    ensures
        str_views(r@) == no_proxy_variable_names(),
{
    let r = vec!["NO_PROXY", "no_proxy"];
    assert(str_views(r@) =~= no_proxy_variable_names());
    r
}

/// The first value that is present.
pub open spec fn first_present(values: Seq<Option<String>>) -> Option<Seq<char>>
    decreases values.len(),
{
    if values.len() == 0 {
        None
    } else {
        match values[0] {
            Some(v) => Some(v@),
            None => first_present(values.drop_first()),
        }
    }
}

/// The first of the looked-up values that is set.
pub fn env_first(values: &[Option<String>]) -> (r: Option<String>)
    ensures
        match r {
            Some(v) => first_present(values@) == Some(v@),
            None => first_present(values@) is None,
        },
{
    let mut i: usize = 0;
    assert(values@.skip(0) =~= values@);
    while i < values.len()
        invariant
            i <= values@.len(),
            first_present(values@.skip(i as int)) == first_present(values@),
        decreases values@.len() - i,
    {
        assert(values@.skip(i as int).drop_first() =~= values@.skip(i + 1));
        match &values[i] {
            Some(v) => {
                return Some(v.clone());
            },
            None => {},
        }
        i = i + 1;
    }
    assert(values@.skip(i as int) =~= Seq::<Option<String>>::empty());
    None
}

/// The proxy to use: the first set of the proxy variables, whose values are
/// given in the order `proxy_variables` names them.
pub fn env_proxy_url(values: &[Option<String>]) -> (r: Option<String>)
    ensures
        match r {
            Some(v) => first_present(values@) == Some(v@),
            None => first_present(values@) is None,
        },
{
    env_first(values)
}

/// The first present value lies within a prefix that holds one.
proof fn lemma_first_present_prefix(values: Seq<Option<String>>, k: int)
    requires
        0 <= k <= values.len(),
        exists|i: int| 0 <= i < k && #[trigger] values[i] is Some,
    ensures
        first_present(values) == first_present(values.take(k)),
    decreases values.len(),
{
    if values[0] is None {
        let i = choose|i: int| 0 <= i < k && #[trigger] values[i] is Some;
        assert(values.drop_first()[i - 1] == values[i]);
        lemma_first_present_prefix(values.drop_first(), k - 1);
        assert(values.take(k).drop_first() =~= values.drop_first().take(k - 1));
    }
}

/// Law: with the values given in the order `proxy_variables` names them,
/// a proxy set for a scheme wins over the catch-all `ALL_PROXY`.
pub proof fn law_scheme_proxy_preferred(values: Seq<Option<String>>)
    requires
        values.len() == proxy_variable_names().len(),
        exists|i: int| 0 <= i < 4 && #[trigger] values[i] is Some,
    ensures
        first_present(values) == first_present(values.take(4)),
        first_present(values) is Some,
{
    assert(proxy_variable_names().len() == 6);
    lemma_first_present_prefix(values, 4);
    let i = choose|i: int| 0 <= i < 4 && #[trigger] values[i] is Some;
    assert(0 <= i < values.len() && values[i] is Some);
    lemma_first_present_some(values);
}

/// Some value is present exactly when the first present one exists.
proof fn lemma_first_present_some(values: Seq<Option<String>>)
    ensures
        (exists|i: int| 0 <= i < values.len() && #[trigger] values[i] is Some) ==> first_present(
            values,
        ) is Some,
    decreases values.len(),
{
    if values.len() > 0 && values[0] is None {
        lemma_first_present_some(values.drop_first());
        if exists|i: int| 0 <= i < values.len() && #[trigger] values[i] is Some {
            let i = choose|i: int| 0 <= i < values.len() && #[trigger] values[i] is Some;
            assert(values.drop_first()[i - 1] == values[i]);
        }
    }
}

/// The hosts to reach without the proxy: the first set of the variables
/// `no_proxy_variables` names, whose values are given in that order, or
/// nothing.
pub fn env_no_proxy(values: &[Option<String>]) -> (r: String)
    ensures
        r@ == match first_present(values@) {
            Some(v) => v,
            None => Seq::<char>::empty(),
        },
{
    match env_first(values) {
        Some(v) => v,
        None => String::new(),
    }
}

/// The hosts the proxy is always bypassed for, after those configured: the
/// local model server must stay reachable whatever the proxy.
pub open spec fn bypass_list(existing: Seq<char>) -> Seq<char> {
    existing + ",localhost,127.0.0.1,::1"@
}

pub fn no_proxy_list(existing: &str) -> (r: String)
    ensures
        r@ == bypass_list(existing@),
{
    let mut out = chars_of(existing);
    push_str_chars(&mut out, ",localhost,127.0.0.1,::1");
    string_of(out.as_slice())
}

} // verus!
