//! The URI that a request is forwarded to: the target's base, the request's
//! path verbatim, and the two query strings merged.
use crate::text::{first_piece, lemma_first_piece_prefix, lemma_split_nonempty, lemma_split_without_delimiter, second_piece, split_seq, split_str, views_of};
use crate::error::ProxyError;
use crate::headers::{value_byte_ok, value_ok};
use vstd::prelude::*;
use vstd::utf8::{encode_utf8, is_ascii_chars, is_ascii_chars_encode_utf8};

verus! {

/// The base of `target`: what comes before its first `?`, with one trailing
/// `/` removed.
pub open spec fn target_base(target: Seq<char>) -> Seq<char> {
    let b = first_piece(target, '?');
    if b.len() > 0 && b.last() == '/' {
        b.drop_last()
    } else {
        b
    }
}

/// The query string embedded in `target`: all that follows its first `?`.
pub open spec fn target_query(target: Seq<char>) -> Seq<char> {
    let b = first_piece(target, '?');
    if b.len() < target.len() {
        target.subrange(b.len() as int + 1, target.len() as int)
    } else {
        Seq::empty()
    }
}

/// The key of one `key=value` item of a query string.
pub open spec fn item_key(item: Seq<char>) -> Seq<char> {
    first_piece(item, '=')
}

/// The keys of the items of the query string `q`.
pub open spec fn query_keys(q: Seq<char>) -> Seq<Seq<char>> {
    split_seq(q, '&').map_values(|item: Seq<char>| item_key(item))
}

/// What the request query items `items` add after the target's query: each
/// one whose key the target does not hold, after a `&`, as it stands and in
/// order.
pub open spec fn appended_items(items: Seq<Seq<char>>, keys: Seq<Seq<char>>) -> Seq<char>
    decreases items.len(),
{
    if items.len() == 0 {
        Seq::empty()
    } else {
        let it = items.last();
        let rest = appended_items(items.drop_last(), keys);
        if keys.contains(item_key(it)) {
            rest
        } else {
            rest + seq!['&'] + it
        }
    }
}

/// The URI that a request with path `path` and query `query` is forwarded to
/// under `target`. The target's query comes first and wins: a request item
/// whose key it holds is dropped, the others follow as they stand, in their
/// order. Both queries are kept as written. With no query on either side no
/// `?` is written.
pub open spec fn forward_uri_of(target: Seq<char>, path: Seq<char>, query: Option<Seq<char>>) -> Seq<char> {
    let base = target_base(target) + path;
    let tq = target_query(target);
    let rq = match query {
        Some(q) => q,
        None => Seq::empty(),
    };
    if tq.len() == 0 && rq.len() == 0 {
        base
    } else if tq.len() == 0 {
        base + seq!['?'] + rq
    } else if rq.len() == 0 {
        base + seq!['?'] + tq
    } else {
        base + seq!['?'] + tq + appended_items(split_seq(rq, '&'), query_keys(tq))
    }
}

/// A target with one trailing `/` forwards every request where the same
/// target without it does: for a target with no embedded query that does
/// not itself end in `/`.
pub proof fn lemma_trailing_slash_ignored(
    target: Seq<char>,
    path: Seq<char>,
    query: Option<Seq<char>>,
)
    requires
        !target.contains('?'),
        target.len() == 0 || target.last() != '/',
    ensures
        forward_uri_of(target.push('/'), path, query) == forward_uri_of(target, path, query),
{
    let slashed = target.push('/');
    assert(!slashed.contains('?')) by {
        if slashed.contains('?') {
            let i = choose|i: int| 0 <= i < slashed.len() && slashed[i] == '?';
            assert(i < target.len());
            assert(target[i] == '?');
        }
    }
    lemma_split_without_delimiter(target, '?');
    lemma_split_without_delimiter(slashed, '?');
    assert(slashed.drop_last() =~= target);
}

/// Whether hyper's URI parser accepts the text `s`.
pub uninterp spec fn uri_parses(s: Seq<char>) -> bool;

/// The authority that hyper's URI parser finds in the text `s`.
pub uninterp spec fn uri_authority(s: Seq<char>) -> Option<Seq<char>>;

/// Relies on hyper's `Uri` parser (`FromStr for Uri`), which accepts a text
/// or not by the text alone, and on `Uri::authority`, the authority it
/// parsed, if the URI has one. The authority parser admits only URI
/// characters and `%`, all of them visible ASCII.
#[verifier::external_body]
pub(crate) fn parse_authority(s: &str) -> (r: Option<Option<String>>)
    ensures
        r is Some <==> uri_parses(s@),
        r matches Some(a) ==> (a is Some <==> uri_authority(s@) is Some),
        r matches Some(Some(a)) ==> uri_authority(s@) == Some(a@),
        r matches Some(Some(a)) ==> visible_ascii(a@),
{
    match s.parse::<hyper::Uri>() {
        Ok(u) => match u.authority() {
            Some(a) => Some(Some(a.as_str().to_string())),
            None => Some(None),
        },
        Err(_) => None,
    }
}

/// Each character of `s` is visible ASCII, `!` to `~`.
pub open spec fn visible_ascii(s: Seq<char>) -> bool {
    forall|i: int| 0 <= i < s.len() ==> '!' <= #[trigger] s[i] <= '~'
}

/// Visible ASCII text is, encoded, a valid header value.
pub proof fn lemma_visible_value_ok(s: Seq<char>)
    requires
        visible_ascii(s),
    ensures
        value_ok(encode_utf8(s)),
{
    assert(is_ascii_chars(s));
    is_ascii_chars_encode_utf8(s);
    assert forall|i: int| 0 <= i < encode_utf8(s).len() implies value_byte_ok(#[trigger] encode_utf8(s)[i]) by {
        assert(s[i] as u8 == encode_utf8(s)[i]);
        assert(33 <= s[i] as u32 <= 126);
    }
}

/// The view of an optional string.
pub open spec fn opt_view(q: Option<&str>) -> Option<Seq<char>> {
    match q {
        Some(s) => Some(s@),
        None => None,
    }
}

/// Whether `keys` holds `k`.
fn holds_key(keys: &Vec<String>, k: &String) -> (r: bool)
    ensures
        r == views_of(keys@).contains(k@),
{
    let mut i: usize = 0;
    while i < keys.len()
        invariant
            i <= keys@.len(),
            forall|j: int| 0 <= j < i ==> (#[trigger] keys@[j])@ != k@,
        decreases keys@.len() - i,
    {
        if keys[i] == *k {
            assert(views_of(keys@)[i as int] == k@);
            return true;
        }
        i = i + 1;
    }
    assert forall|j: int| 0 <= j < views_of(keys@).len() implies views_of(keys@)[j] != k@ by {
        assert(views_of(keys@)[j] == keys@[j]@);
    }
    false
}

/// The first and second pieces of `s` split at `d`, the second empty if
/// there is no `d`.
fn two_pieces(s: &str, d: char) -> (r: (String, String))
    ensures
        r.0@ == first_piece(s@, d),
        r.1@ == second_piece(s@, d),
{
    let mut parts = split_str(s, d);
    proof {
        lemma_split_nonempty(s@, d);
    }
    assert(parts@[0]@ == views_of(parts@)[0]);
    let second = if parts.len() > 1 {
        assert(parts@[1]@ == views_of(parts@)[1]);
        parts.remove(1)
    } else {
        String::new()
    };
    let first = parts.remove(0);
    (first, second)
}

/// Builds the URI that a request with path `path` and query `query` is
/// forwarded to under the base URL `forward_url`, and checks that it is one:
/// `InvalidUri` where hyper does not parse it or it names no authority to
/// send to.
pub fn forward_uri(forward_url: &str, path: &str, query: Option<&str>) -> (r: Result<String, ProxyError>)
    ensures
        ({
            let u = forward_uri_of(forward_url@, path@, opt_view(query));
            &&& r is Ok <==> uri_parses(u) && uri_authority(u) is Some
            &&& r matches Ok(s) ==> s@ == u
            &&& r matches Err(e) ==> e is InvalidUri
        }),
{
    let uri = build_forward_uri(forward_url, path, query);
    match parse_authority(uri.as_str()) {
        Some(Some(_)) => Ok(uri),
        _ => Err(ProxyError::InvalidUri),
    }
}

/// Builds the text of the URI that a request with path `path` and query
/// `query` is forwarded to under the base URL `forward_url`.
pub fn build_forward_uri(forward_url: &str, path: &str, query: Option<&str>) -> (r: String)
    ensures
        r@ == forward_uri_of(forward_url@, path@, opt_view(query)),
{
    proof {
        reveal_strlit("?");
        reveal_strlit("&");
        reveal_strlit("=");
    }
    let (base0, _) = two_pieces(forward_url, '?');
    let n = base0.as_str().unicode_len();
    let total = forward_url.unicode_len();
    proof {
        lemma_first_piece_prefix(forward_url@, '?');
    }
    let tq = if n < total {
        forward_url.substring_char(n + 1, total).to_owned()
    } else {
        String::new()
    };
    let mut url = if n > 0 && base0.as_str().get_char(n - 1) == '/' {
        base0.as_str().substring_char(0, n - 1).to_owned()
    } else {
        base0
    };
    url.append(path);
    let rq: &str = match query {
        Some(q) => q,
        None => "",
    };
    proof {
        reveal_strlit("");
    }
    let tq_empty = tq.as_str().unicode_len() == 0;
    let rq_empty = rq.unicode_len() == 0;
    if tq_empty && rq_empty {
        return url;
    }
    url.append("?");
    if tq_empty {
        url.append(rq);
        return url;
    }
    url.append(tq.as_str());
    if rq_empty {
        return url;
    }
    let titems = split_str(tq.as_str(), '&');
    let mut tkeys: Vec<String> = Vec::new();
    let mut i: usize = 0;
    while i < titems.len()
        invariant
            i <= titems@.len(),
            views_of(titems@) == split_seq(tq@, '&'),
            views_of(tkeys@) == views_of(titems@).subrange(0, i as int).map_values(
                |item: Seq<char>| item_key(item),
            ),
        decreases titems@.len() - i,
    {
        let (k, _) = two_pieces(titems[i].as_str(), '=');
        let ghost before = tkeys@;
        tkeys.push(k);
        assert(views_of(tkeys@) =~= views_of(titems@).subrange(0, i as int + 1).map_values(
            |item: Seq<char>| item_key(item),
        )) by {
            assert(views_of(tkeys@) =~= views_of(before).push(k@));
            assert(views_of(titems@)[i as int] == titems@[i as int]@);
        }
        i = i + 1;
    }
    assert(views_of(titems@).subrange(0, i as int) =~= views_of(titems@));
    let ritems = split_str(rq, '&');
    let ghost head = url@;
    let ghost items = split_seq(rq@, '&');
    assert(items.subrange(0, 0) =~= Seq::<Seq<char>>::empty());
    assert(url@ =~= head + appended_items(items.subrange(0, 0), query_keys(tq@)));
    let mut j: usize = 0;
    while j < ritems.len()
        invariant
            j <= ritems@.len(),
            views_of(ritems@) == items,
            views_of(tkeys@) == query_keys(tq@),
            url@ == head + appended_items(items.subrange(0, j as int), query_keys(tq@)),
        decreases ritems@.len() - j,
    {
        let (k, _) = two_pieces(ritems[j].as_str(), '=');
        assert(items[j as int] == ritems@[j as int]@);
        assert(items.subrange(0, j as int + 1).drop_last() =~= items.subrange(0, j as int));
        if !holds_key(&tkeys, &k) {
            proof {
                reveal_strlit("&");
            }
            url.append("&");
            url.append(ritems[j].as_str());
            assert(url@ =~= head + appended_items(items.subrange(0, j as int + 1), query_keys(tq@)));
        }
        j = j + 1;
    }
    assert(items.subrange(0, j as int) =~= items);
    url
}

} // verus!
