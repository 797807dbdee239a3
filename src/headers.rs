//! Header collections: what a `HeaderMap` holds, the hop-by-hop names, and
//! the removal of the headers that must not travel past one connection.
use crate::text::{
    byte_views_of, bytes_eq_ignore_case, eq_ignore_case, split_bytes, split_seq, trim, trim_bytes,
};
use hyper::header::{HeaderMap, HeaderName, HeaderValue};
use vstd::prelude::*;

verus! {

#[verifier::external_type_specification]
#[verifier::external_body]
#[verifier::reject_recursive_types(T)]
pub struct ExHeaderMap<T>(HeaderMap<T>);

#[verifier::external_type_specification]
#[verifier::external_body]
pub struct ExHeaderValue(HeaderValue);

/// What a header map holds: for each header name, in its lower-case form,
/// the bytes of its values in the order they were added.
pub uninterp spec fn header_fields(m: HeaderMap) -> Map<Seq<u8>, Seq<Seq<u8>>>;

/// The number of names a map may hold when one more is inserted. A
/// `HeaderMap` panics when it has to grow past its largest table, which it
/// does only once it holds more than 6553 names.
pub const MAX_HEADER_NAMES: usize = 6000;

/// `m` holds few enough names that inserting one more cannot overflow it.
pub open spec fn has_room(f: Map<Seq<u8>, Seq<Seq<u8>>>) -> bool {
    f.dom().finite() && f.dom().len() < MAX_HEADER_NAMES
}

/// The normal form of one byte of a header name: lower case for a letter,
/// unchanged for another token character, zero for a byte that no name holds.
pub open spec fn name_byte(b: u8) -> u8 {
    if 65 <= b <= 90 {
        (b + 32) as u8
    } else if (97 <= b <= 122) || (48 <= b <= 57) || b == 33 || (34 <= b <= 39) || b == 42
        || b == 43 || b == 45 || b == 46 || b == 94 || b == 95 || b == 96 || b == 124 || b
        == 126 {
        b
    } else {
        0
    }
}

/// The header name that the bytes `s` stand for, if they form one: a name is
/// 1 to 65535 token characters, and is compared in lower case.
pub open spec fn header_key(s: Seq<u8>) -> Option<Seq<u8>> {
    if 1 <= s.len() <= 65535 && forall|i: int| 0 <= i < s.len() ==> name_byte(#[trigger] s[i]) != 0 {
        Some(s.map_values(|b: u8| name_byte(b)))
    } else {
        None
    }
}

/// The bytes that a header value may hold: visible characters, obs-text
/// and horizontal tab.
pub open spec fn value_byte_ok(b: u8) -> bool {
    (b >= 32 && b != 127) || b == 9
}

/// Whether `v` can be the value of a header.
pub open spec fn value_ok(v: Seq<u8>) -> bool {
    forall|i: int| 0 <= i < v.len() ==> value_byte_ok(#[trigger] v[i])
}

/// The number of names in `f`; -1 would stand for infinitely many.
pub open spec fn name_count(f: Map<Seq<u8>, Seq<Seq<u8>>>) -> int {
    if f.dom().finite() {
        f.dom().len() as int
    } else {
        -1
    }
}

/// Relies on `HeaderMap::keys_len`, the number of distinct names the map
/// holds.
#[verifier::external_body]
pub(crate) fn header_names_len(m: &HeaderMap) -> (r: usize)
    ensures
        r as int == name_count(header_fields(*m)),
{
    m.keys_len()
}

/// Relies on `HeaderName::from_bytes`, which normalises the name, and on
/// `HeaderMap::get_all`, which yields every value stored under it in order,
/// none where there is none.
#[verifier::external_body]
pub(crate) fn header_get_all(m: &HeaderMap, name: &[u8]) -> (r: Vec<Vec<u8>>)
    ensures
        header_key(name@) is None ==> r@.len() == 0,
        header_key(name@) matches Some(k) ==> byte_views_of(r@) == (if header_fields(*m).contains_key(k) {
            header_fields(*m)[k]
        } else {
            Seq::empty()
        }),
{
    match HeaderName::from_bytes(name) {
        Ok(n) => m.get_all(&n).iter().map(|v| v.as_bytes().to_vec()).collect(),
        Err(_) => Vec::new(),
    }
}

/// The values `vs` as one list, separated by `sep`.
pub open spec fn join_values(vs: Seq<Seq<u8>>, sep: Seq<u8>) -> Seq<u8>
    decreases vs.len(),
{
    if vs.len() == 0 {
        Seq::empty()
    } else if vs.len() == 1 {
        vs[0]
    } else {
        join_values(vs.drop_last(), sep) + sep + vs.last()
    }
}

/// The header `k` of `f` as one value, if `f` holds it: all its lines in
/// order, joined by `", "`, which a list-valued header means the same as.
pub open spec fn list_value(f: Map<Seq<u8>, Seq<Seq<u8>>>, k: Seq<u8>) -> Option<Seq<u8>> {
    if f.contains_key(k) && f[k].len() > 0 {
        Some(join_values(f[k], seq![44u8, 32u8]))
    } else {
        None
    }
}

/// Joins the values `vs`, separated by `sep`.
fn join_bytes(vs: &Vec<Vec<u8>>, sep: &[u8]) -> (r: Vec<u8>)
    requires
        vs@.len() > 0,
    ensures
        r@ == join_values(byte_views_of(vs@), sep@),
{
    let ghost views = byte_views_of(vs@);
    let mut r: Vec<u8> = Vec::new();
    r.extend_from_slice(vs[0].as_slice());
    assert(views.subrange(0, 1) =~= seq![views[0]]);
    assert(r@ =~= join_values(views.subrange(0, 1), sep@));
    let mut i: usize = 1;
    while i < vs.len()
        invariant
            views == byte_views_of(vs@),
            1 <= i <= vs@.len(),
            r@ == join_values(views.subrange(0, i as int), sep@),
        decreases vs@.len() - i,
    {
        r.extend_from_slice(sep);
        r.extend_from_slice(vs[i].as_slice());
        assert(views.subrange(0, i as int + 1).drop_last() =~= views.subrange(0, i as int));
        assert(r@ =~= join_values(views.subrange(0, i as int + 1), sep@));
        i = i + 1;
    }
    assert(views.subrange(0, i as int) =~= views);
    r
}

/// The header `name` of `headers` as one value: all its lines in order,
/// joined by `", "`.
pub fn header_list(headers: &HeaderMap, name: &[u8]) -> (r: Option<Vec<u8>>)
    ensures
        header_key(name@) is None ==> r is None,
        header_key(name@) matches Some(k) ==> (r is Some <==> list_value(header_fields(*headers), k) is Some),
        header_key(name@) matches Some(k) ==> (r matches Some(v) ==> list_value(header_fields(*headers), k) == Some(v@)),
{
    let vs = header_get_all(headers, name);
    if vs.len() == 0 {
        return None;
    }
    let sep = vec![44u8, 32u8];
    assert(sep@ =~= seq![44u8, 32u8]);
    Some(join_bytes(&vs, sep.as_slice()))
}

/// Relies on `HeaderName::from_bytes`, which normalises the name, and on
/// `HeaderMap::remove`, which drops every value stored under it.
#[verifier::external_body]
pub(crate) fn header_remove(m: &mut HeaderMap, name: &[u8])
    ensures
        header_key(name@) is None ==> header_fields(*final(m)) == header_fields(*old(m)),
        header_key(name@) matches Some(k) ==> header_fields(*final(m)) == header_fields(*old(m)).remove(k),
{
    if let Ok(n) = HeaderName::from_bytes(name) {
        m.remove(&n);
    }
}

/// Relies on `HeaderName::from_bytes` and `HeaderValue::from_bytes`, which
/// accept a token and the bytes that `value_ok` admits, and on
/// `HeaderMap::insert`, which replaces every value of the name by the new one.
#[verifier::external_body]
pub(crate) fn header_insert(m: &mut HeaderMap, name: &[u8], value: &[u8]) -> (ok: bool)
    requires
        has_room(header_fields(*old(m))),
    ensures
        ok == (header_key(name@) is Some && value_ok(value@)),
        ok ==> header_fields(*final(m)) == header_fields(*old(m)).insert(
            header_key(name@)->0,
            seq![value@],
        ),
        !ok ==> header_fields(*final(m)) == header_fields(*old(m)),
{
    match (HeaderName::from_bytes(name), HeaderValue::from_bytes(value)) {
        (Ok(n), Ok(v)) => {
            m.insert(n, v);
            true
        },
        _ => false,
    }
}

/// The header name `connection`.
pub open spec fn connection_name() -> Seq<u8> {
    seq![99u8, 111, 110, 110, 101, 99, 116, 105, 111, 110]
}

/// The bytes of the header name `connection`.
pub fn connection_bytes() -> (r: Vec<u8>)
    ensures
        r@ == connection_name(),
{
    let r = vec![99u8, 111, 110, 110, 101, 99, 116, 105, 111, 110];
    assert(r@ =~= connection_name());
    r
}

/// The header name `te`.
pub open spec fn te_name() -> Seq<u8> {
    seq![116u8, 101]
}

/// The bytes of the header name `te`.
pub fn te_bytes() -> (r: Vec<u8>)
    ensures
        r@ == te_name(),
{
    let r = vec![116u8, 101];
    assert(r@ =~= te_name());
    r
}

/// The header name `keep-alive`.
pub open spec fn keep_alive_name() -> Seq<u8> {
    seq![107u8, 101, 101, 112, 45, 97, 108, 105, 118, 101]
}

/// The bytes of the header name `keep-alive`.
pub fn keep_alive_bytes() -> (r: Vec<u8>)
    ensures
        r@ == keep_alive_name(),
{
    let r = vec![107u8, 101, 101, 112, 45, 97, 108, 105, 118, 101];
    assert(r@ =~= keep_alive_name());
    r
}

/// The header name `proxy-connection`.
pub open spec fn proxy_connection_name() -> Seq<u8> {
    seq![112u8, 114, 111, 120, 121, 45, 99, 111, 110, 110, 101, 99, 116, 105, 111, 110]
}

/// The bytes of the header name `proxy-connection`.
pub fn proxy_connection_bytes() -> (r: Vec<u8>)
    ensures
        r@ == proxy_connection_name(),
{
    let r = vec![112u8, 114, 111, 120, 121, 45, 99, 111, 110, 110, 101, 99, 116, 105, 111, 110];
    assert(r@ =~= proxy_connection_name());
    r
}

/// The header name `proxy-authenticate`.
pub open spec fn proxy_authenticate_name() -> Seq<u8> {
    seq![112u8, 114, 111, 120, 121, 45, 97, 117, 116, 104, 101, 110, 116, 105, 99, 97, 116, 101]
}

/// The bytes of the header name `proxy-authenticate`.
pub fn proxy_authenticate_bytes() -> (r: Vec<u8>)
    ensures
        r@ == proxy_authenticate_name(),
{
    let r = vec![112u8, 114, 111, 120, 121, 45, 97, 117, 116, 104, 101, 110, 116, 105, 99, 97, 116, 101];
    assert(r@ =~= proxy_authenticate_name());
    r
}

/// The header name `proxy-authorization`.
pub open spec fn proxy_authorization_name() -> Seq<u8> {
    seq![112u8, 114, 111, 120, 121, 45, 97, 117, 116, 104, 111, 114, 105, 122, 97, 116, 105, 111, 110]
}

/// The bytes of the header name `proxy-authorization`.
pub fn proxy_authorization_bytes() -> (r: Vec<u8>)
    ensures
        r@ == proxy_authorization_name(),
{
    let r = vec![112u8, 114, 111, 120, 121, 45, 97, 117, 116, 104, 111, 114, 105, 122, 97, 116, 105, 111, 110];
    assert(r@ =~= proxy_authorization_name());
    r
}

/// The header name `trailer`.
pub open spec fn trailer_name() -> Seq<u8> {
    seq![116u8, 114, 97, 105, 108, 101, 114]
}

/// The bytes of the header name `trailer`.
pub fn trailer_bytes() -> (r: Vec<u8>)
    ensures
        r@ == trailer_name(),
{
    let r = vec![116u8, 114, 97, 105, 108, 101, 114];
    assert(r@ =~= trailer_name());
    r
}

/// The header name `trailers`.
pub open spec fn trailers_name() -> Seq<u8> {
    seq![116u8, 114, 97, 105, 108, 101, 114, 115]
}

/// The bytes of the header name `trailers`.
pub fn trailers_bytes() -> (r: Vec<u8>)
    ensures
        r@ == trailers_name(),
{
    let r = vec![116u8, 114, 97, 105, 108, 101, 114, 115];
    assert(r@ =~= trailers_name());
    r
}

/// The header name `transfer-encoding`.
pub open spec fn transfer_encoding_name() -> Seq<u8> {
    seq![116u8, 114, 97, 110, 115, 102, 101, 114, 45, 101, 110, 99, 111, 100, 105, 110, 103]
}

/// The bytes of the header name `transfer-encoding`.
pub fn transfer_encoding_bytes() -> (r: Vec<u8>)
    ensures
        r@ == transfer_encoding_name(),
{
    let r = vec![116u8, 114, 97, 110, 115, 102, 101, 114, 45, 101, 110, 99, 111, 100, 105, 110, 103];
    assert(r@ =~= transfer_encoding_name());
    r
}

/// The header name `upgrade`.
pub open spec fn upgrade_name() -> Seq<u8> {
    seq![117u8, 112, 103, 114, 97, 100, 101]
}

/// The bytes of the header name `upgrade`.
pub fn upgrade_bytes() -> (r: Vec<u8>)
    ensures
        r@ == upgrade_name(),
{
    let r = vec![117u8, 112, 103, 114, 97, 100, 101];
    assert(r@ =~= upgrade_name());
    r
}

/// The header name `x-forwarded-for`.
pub open spec fn x_forwarded_for_name() -> Seq<u8> {
    seq![120u8, 45, 102, 111, 114, 119, 97, 114, 100, 101, 100, 45, 102, 111, 114]
}

/// The bytes of the header name `x-forwarded-for`.
pub fn x_forwarded_for_bytes() -> (r: Vec<u8>)
    ensures
        r@ == x_forwarded_for_name(),
{
    let r = vec![120u8, 45, 102, 111, 114, 119, 97, 114, 100, 101, 100, 45, 102, 111, 114];
    assert(r@ =~= x_forwarded_for_name());
    r
}

/// The header name `host`.
pub open spec fn host_name() -> Seq<u8> {
    seq![104u8, 111, 115, 116]
}

/// The bytes of the header name `host`.
pub fn host_bytes() -> (r: Vec<u8>)
    ensures
        r@ == host_name(),
{
    let r = vec![104u8, 111, 115, 116];
    assert(r@ =~= host_name());
    r
}

/// The hop-by-hop header names, which are never forwarded as they are.
pub open spec fn hop_names() -> Seq<Seq<u8>> {
    seq![
        connection_name(), te_name(), keep_alive_name(), proxy_connection_name(), proxy_authenticate_name(), proxy_authorization_name(), trailer_name(), trailers_name(), transfer_encoding_name(), upgrade_name(),
    ]
}

/// The hop-by-hop header names as a set.
pub open spec fn hop_set() -> Set<Seq<u8>> {
    hop_names().to_set()
}

/// The bytes of each hop-by-hop header name, in the order of `hop_names`.
pub fn hop_header_names() -> (r: Vec<Vec<u8>>)
    ensures
        byte_views_of(r@) == hop_names(),
{
    let r = vec![
        connection_bytes(), te_bytes(), keep_alive_bytes(), proxy_connection_bytes(), proxy_authenticate_bytes(), proxy_authorization_bytes(), trailer_bytes(), trailers_bytes(), transfer_encoding_bytes(), upgrade_bytes(),
    ];
    assert(byte_views_of(r@) =~= hop_names());
    r
}

/// A name in lower-case token characters stands for itself.
pub proof fn lemma_lower_name_is_key(s: Seq<u8>)
    requires
        1 <= s.len() <= 65535,
        forall|i: int| 0 <= i < s.len() ==> name_byte(#[trigger] s[i]) == s[i] && s[i] != 0,
    ensures
        header_key(s) == Some(s),
{
    assert(s.map_values(|b: u8| name_byte(b)) =~= s);
}

/// Each hop-by-hop name, and each name that the proxy sets, stands for itself.
pub proof fn lemma_fixed_names_are_keys()
    ensures
        forall|i: int| 0 <= i < hop_names().len() ==> header_key(#[trigger] hop_names()[i]) == Some(hop_names()[i]),
        header_key(x_forwarded_for_name()) == Some(x_forwarded_for_name()),
        header_key(host_name()) == Some(host_name()),
{
    lemma_lower_name_is_key(connection_name());
    lemma_lower_name_is_key(te_name());
    lemma_lower_name_is_key(keep_alive_name());
    lemma_lower_name_is_key(proxy_connection_name());
    lemma_lower_name_is_key(proxy_authenticate_name());
    lemma_lower_name_is_key(proxy_authorization_name());
    lemma_lower_name_is_key(trailer_name());
    lemma_lower_name_is_key(trailers_name());
    lemma_lower_name_is_key(transfer_encoding_name());
    lemma_lower_name_is_key(upgrade_name());
    lemma_lower_name_is_key(x_forwarded_for_name());
    lemma_lower_name_is_key(host_name());
    assert forall|i: int| 0 <= i < hop_names().len() implies header_key(#[trigger] hop_names()[i]) == Some(hop_names()[i]) by {
        if i == 0 {}
        if i == 1 {}
        if i == 2 {}
        if i == 3 {}
        if i == 4 {}
        if i == 5 {}
        if i == 6 {}
        if i == 7 {}
        if i == 8 {}
        if i == 9 {}
    }
}


/// `f` without its hop-by-hop headers.
pub open spec fn hop_stripped(f: Map<Seq<u8>, Seq<Seq<u8>>>) -> Map<Seq<u8>, Seq<Seq<u8>>> {
    f.remove_keys(hop_set())
}

/// The header names that the tokens `toks` stand for; a token that is no
/// header name stands for none.
pub open spec fn keys_of(toks: Seq<Seq<u8>>) -> Set<Seq<u8>> {
    Set::new(|k: Seq<u8>| exists|j: int| 0 <= j < toks.len() && header_key(#[trigger] toks[j]) == Some(k))
}

/// The comma-separated tokens of a header value, trimmed.
pub open spec fn value_tokens(v: Seq<u8>) -> Seq<Seq<u8>> {
    split_seq(v, 44u8).map_values(|p: Seq<u8>| trim(p))
}

/// Whether one of `toks` is `word` up to ASCII case.
pub open spec fn has_token(toks: Seq<Seq<u8>>, word: Seq<u8>) -> bool {
    exists|i: int| 0 <= i < toks.len() && eq_ignore_case(#[trigger] toks[i], word)
}

/// The trimmed tokens of the `Connection` header of `f`, over all its lines.
pub open spec fn connection_tokens(f: Map<Seq<u8>, Seq<Seq<u8>>>) -> Seq<Seq<u8>> {
    match list_value(f, connection_name()) {
        Some(v) => value_tokens(v),
        None => Seq::empty(),
    }
}

/// The protocol that the headers `f` ask to upgrade to: the `Upgrade`
/// header as one value, where the `Connection` header holds the token `upgrade`.
pub open spec fn upgrade_type(f: Map<Seq<u8>, Seq<Seq<u8>>>) -> Option<Seq<u8>> {
    match list_value(f, connection_name()) {
        Some(c) => if has_token(value_tokens(c), upgrade_name()) {
            list_value(f, upgrade_name())
        } else {
            None
        },
        None => None,
    }
}

/// Whether the `TE` header of `f` accepts trailers.
pub open spec fn te_trailers(f: Map<Seq<u8>, Seq<Seq<u8>>>) -> bool {
    match list_value(f, te_name()) {
        Some(t) => has_token(value_tokens(t), trailers_name()),
        None => false,
    }
}

/// Whether one of the comma-separated tokens of `v`, trimmed, is `word` up
/// to ASCII case.
pub fn value_has_token(v: &[u8], word: &[u8]) -> (r: bool)
    ensures
        r == has_token(value_tokens(v@), word@),
{
    let pieces = split_bytes(v, 44u8);
    let ghost toks = value_tokens(v@);
    let mut i: usize = 0;
    while i < pieces.len()
        invariant
            toks == value_tokens(v@),
            toks == byte_views_of(pieces@).map_values(|p: Seq<u8>| trim(p)),
            i <= pieces@.len(),
            toks.len() == pieces@.len(),
            forall|j: int| 0 <= j < i ==> !eq_ignore_case(#[trigger] toks[j], word@),
        decreases pieces@.len() - i,
    {
        let t = trim_bytes(pieces[i].as_slice());
        assert(t@ == toks[i as int]);
        if bytes_eq_ignore_case(t.as_slice(), word) {
            assert(eq_ignore_case(toks[i as int], word@));
            return true;
        }
        i = i + 1;
    }
    false
}

/// The protocol that `headers` ask to upgrade to: the `Upgrade` header as
/// one value, where the `Connection` header holds the token `upgrade` in any case.
pub fn get_upgrade_type(headers: &HeaderMap) -> (r: Option<Vec<u8>>)
    ensures
        r is Some <==> upgrade_type(header_fields(*headers)) is Some,
        r matches Some(u) ==> upgrade_type(header_fields(*headers)) == Some(u@),
{
    proof {
        lemma_fixed_names_are_keys();
    }
    let conn = connection_bytes();
    let c = header_list(headers, conn.as_slice());
    match c {
        Some(c) => {
            let word = upgrade_bytes();
            if value_has_token(c.as_slice(), word.as_slice()) {
                header_list(headers, word.as_slice())
            } else {
                None
            }
        },
        None => None,
    }
}

/// Whether the `TE` header of `headers` holds the token `trailers` in
/// any case.
pub fn wants_trailers(headers: &HeaderMap) -> (r: bool)
    ensures
        r == te_trailers(header_fields(*headers)),
{
    proof {
        lemma_fixed_names_are_keys();
    }
    let te = te_bytes();
    match header_list(headers, te.as_slice()) {
        Some(t) => {
            let word = trailers_bytes();
            value_has_token(t.as_slice(), word.as_slice())
        },
        None => false,
    }
}

/// The header names that the `Connection` header of `f` nominates.
pub open spec fn named_keys(f: Map<Seq<u8>, Seq<Seq<u8>>>) -> Set<Seq<u8>> {
    keys_of(connection_tokens(f))
}

/// `f` without the headers that its `Connection` header nominates.
pub open spec fn connection_stripped(f: Map<Seq<u8>, Seq<Seq<u8>>>) -> Map<Seq<u8>, Seq<Seq<u8>>> {
    f.remove_keys(named_keys(f))
}

/// `f` without any header that belongs to one connection only: those that
/// its `Connection` header nominates, and the hop-by-hop ones.
pub open spec fn stripped(f: Map<Seq<u8>, Seq<Seq<u8>>>) -> Map<Seq<u8>, Seq<Seq<u8>>> {
    hop_stripped(connection_stripped(f))
}

proof fn lemma_keys_of_push(toks: Seq<Seq<u8>>, t: Seq<u8>)
    ensures
        keys_of(toks.push(t)) == (match header_key(t) {
            Some(k) => keys_of(toks).insert(k),
            None => keys_of(toks),
        }),
{
    let l = toks.push(t);
    assert forall|k: Seq<u8>| keys_of(toks).contains(k) implies keys_of(l).contains(k) by {
        let j = choose|j: int| 0 <= j < toks.len() && header_key(#[trigger] toks[j]) == Some(k);
        assert(l[j] == toks[j]);
    }
    assert forall|k: Seq<u8>| keys_of(l).contains(k) && header_key(t) != Some(k) implies keys_of(toks).contains(k) by {
        let j = choose|j: int| 0 <= j < l.len() && header_key(#[trigger] l[j]) == Some(k);
        assert(j < toks.len());
        assert(l[j] == toks[j]);
    }
    if let Some(k) = header_key(t) {
        assert(l[toks.len() as int] == t);
        assert(keys_of(l) =~= keys_of(toks).insert(k));
    } else {
        assert(keys_of(l) =~= keys_of(toks));
    }
}

/// Removes every hop-by-hop header.
pub fn remove_hop_headers(headers: &mut HeaderMap)
    ensures
        header_fields(*final(headers)) == hop_stripped(header_fields(*old(headers))),
{
    let names = hop_header_names();
    proof {
        assert(header_fields(*headers).remove_keys(hop_names().subrange(0, 0).to_set()) =~= header_fields(*headers));
    }
    let mut i: usize = 0;
    while i < names.len()
        invariant
            byte_views_of(names@) == hop_names(),
            i <= names@.len(),
            header_fields(*headers) == header_fields(*old(headers)).remove_keys(
                hop_names().subrange(0, i as int).to_set(),
            ),
        decreases names@.len() - i,
    {
        let ghost prev = header_fields(*headers);
        assert(names@[i as int]@ == hop_names()[i as int]);
        header_remove(headers, names[i].as_slice());
        proof {
            lemma_fixed_names_are_keys();
            let h = hop_names();
            assert(h.subrange(0, i as int + 1).to_set() =~= h.subrange(0, i as int).to_set().insert(h[i as int])) by {
                assert forall|k: Seq<u8>| h.subrange(0, i as int + 1).to_set().contains(k) implies h.subrange(0, i as int).to_set().insert(h[i as int]).contains(k) by {
                    let j = choose|j: int| 0 <= j < i + 1 && #[trigger] h.subrange(0, i as int + 1)[j] == k;
                    if j < i {
                        assert(h.subrange(0, i as int)[j] == k);
                    }
                }
                assert forall|k: Seq<u8>| h.subrange(0, i as int).to_set().contains(k) implies h.subrange(0, i as int + 1).to_set().contains(k) by {
                    let j = choose|j: int| 0 <= j < i && #[trigger] h.subrange(0, i as int)[j] == k;
                    assert(h.subrange(0, i as int + 1)[j] == k);
                }
                assert(h.subrange(0, i as int + 1)[i as int] == h[i as int]);
            }
            assert(header_key(h[i as int]) == Some(h[i as int]));
            assert(header_fields(*headers) == prev.remove(h[i as int]));
            assert(header_fields(*headers) =~= header_fields(*old(headers)).remove_keys(
                h.subrange(0, i as int + 1).to_set(),
            ));
        }
        i = i + 1;
    }
    assert(hop_names().subrange(0, i as int) =~= hop_names());
}

/// Removes the headers that the `Connection` header nominates: its
/// comma-separated tokens, trimmed, compared without regard to case. A
/// token that is no header name is passed over.
fn remove_named_headers(headers: &mut HeaderMap)
    ensures
        header_fields(*final(headers)) == connection_stripped(header_fields(*old(headers))),
{
    let ghost f0 = header_fields(*headers);
    let conn = connection_bytes();
    proof {
        lemma_fixed_names_are_keys();
    }
    let value = header_list(headers, conn.as_slice());
    match value {
        None => {
            assert(connection_tokens(f0) =~= Seq::<Seq<u8>>::empty());
            assert(named_keys(f0) =~= Set::<Seq<u8>>::empty());
            assert(f0.remove_keys(named_keys(f0)) =~= f0);
        },
        Some(v) => {
            let pieces = split_bytes(v.as_slice(), 44u8);
            let ghost toks = connection_tokens(f0);
            assert(toks.len() == pieces@.len());
            assert(keys_of(toks.subrange(0, 0)) =~= Set::<Seq<u8>>::empty());
            assert(f0.remove_keys(Set::<Seq<u8>>::empty()) =~= f0);
            let mut i: usize = 0;
            while i < pieces.len()
                invariant
                    toks == connection_tokens(f0),
                    toks == byte_views_of(pieces@).map_values(|p: Seq<u8>| trim(p)),
                    i <= pieces@.len(),
                    toks.len() == pieces@.len(),
                    header_fields(*headers) == f0.remove_keys(keys_of(toks.subrange(0, i as int))),
                decreases pieces@.len() - i,
            {
                let t = trim_bytes(pieces[i].as_slice());
                assert(t@ == toks[i as int]);
                header_remove(headers, t.as_slice());
                proof {
                    assert(toks.subrange(0, i as int + 1) =~= toks.subrange(0, i as int).push(t@));
                    lemma_keys_of_push(toks.subrange(0, i as int), t@);
                    if let Some(k) = header_key(t@) {
                        assert(header_fields(*headers) =~= f0.remove_keys(
                            keys_of(toks.subrange(0, i as int + 1)),
                        ));
                    }
                }
                i = i + 1;
            }
            assert(toks.subrange(0, i as int) =~= toks);
        },
    }
}

/// Removes every header that belongs to one connection only: those that the
/// `Connection` header nominates (its comma-separated tokens, trimmed,
/// compared without regard to case, a token that is no header name passed
/// over), and the hop-by-hop ones, `Connection` among them.
pub fn remove_connection_headers(headers: &mut HeaderMap)
    ensures
        header_fields(*final(headers)) == stripped(header_fields(*old(headers))),
{
    remove_named_headers(headers);
    remove_hop_headers(headers);
}

/// Strips a response of the headers that belong to the connection it came
/// on, as `remove_connection_headers` does. Status and body are not touched.
pub fn create_proxied_response(headers: &mut HeaderMap)
    ensures
        header_fields(*final(headers)) == stripped(header_fields(*old(headers))),
{
    remove_connection_headers(headers);
}

/// Whatever the case in which a hop-by-hop header name is written, no header
/// of that name is left after stripping.
pub proof fn lemma_stripped_has_no_hop_header(f: Map<Seq<u8>, Seq<Seq<u8>>>, name: Seq<u8>)
    requires
        header_key(name) matches Some(k) && hop_set().contains(k),
    ensures
        !stripped(f).contains_key(header_key(name)->0),
{
}

/// A header that the `Connection` header nominates is gone after stripping,
/// and so is the `Connection` header itself.
pub proof fn lemma_stripped_has_no_named_header(f: Map<Seq<u8>, Seq<Seq<u8>>>, i: int)
    requires
        0 <= i < connection_tokens(f).len(),
        header_key(connection_tokens(f)[i]) is Some,
    ensures
        !stripped(f).contains_key(header_key(connection_tokens(f)[i])->0),
        !stripped(f).contains_key(connection_name()),
{
    assert(named_keys(f).contains(header_key(connection_tokens(f)[i])->0));
    assert(hop_names()[0] == connection_name());
}

/// Removing the hop-by-hop headers twice leaves what removing them once does.
pub proof fn lemma_hop_strip_idempotent(f: Map<Seq<u8>, Seq<Seq<u8>>>)
    ensures
        hop_stripped(hop_stripped(f)) == hop_stripped(f),
{
    assert(hop_stripped(hop_stripped(f)) =~= hop_stripped(f));
}

/// Stripping a header collection a second time changes nothing: the first
/// pass leaves no `Connection` header to nominate more.
pub proof fn lemma_strip_idempotent(f: Map<Seq<u8>, Seq<Seq<u8>>>)
    ensures
        stripped(stripped(f)) == stripped(f),
{
    let g = stripped(f);
    assert(hop_names()[0] == connection_name());
    assert(!g.contains_key(connection_name()));
    assert(connection_tokens(g) =~= Seq::<Seq<u8>>::empty());
    assert(named_keys(g) =~= Set::<Seq<u8>>::empty());
    assert(connection_stripped(g) =~= g);
    assert(hop_stripped(g) =~= g);
}

} // verus!
