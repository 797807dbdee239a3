//! The request that is sent on to the origin, and what becomes of the
//! origin's answer.
use crate::error::ProxyError;
use crate::forward::{
    build_forward_uri, forward_uri_of, lemma_visible_value_ok, opt_view, parse_authority,
    uri_authority, uri_parses,
};
use crate::headers::{
    connection_bytes, connection_name, list_value, get_upgrade_type, has_room, header_fields,
    header_list, header_insert, header_key, header_names_len, hop_set, host_bytes, host_name,
    lemma_fixed_names_are_keys, lemma_stripped_has_no_hop_header, remove_connection_headers, stripped, te_bytes, te_name, te_trailers, trailers_bytes, trailers_name,
    upgrade_bytes, upgrade_name, upgrade_type, value_byte_ok, value_ok, wants_trailers, x_forwarded_for_bytes,
    x_forwarded_for_name, MAX_HEADER_NAMES,
};
use hyper::header::HeaderMap;
use vstd::prelude::*;
use vstd::string::StringSliceAdditionalSpecFns;
use vstd::utf8::{encode_utf8, valid_utf8};

verus! {

/// Relies on `std::str::from_utf8`, which accepts exactly the valid UTF-8
/// byte sequences.
#[verifier::external_body]
fn is_utf8(b: &[u8]) -> (r: bool)
    ensures
        r == valid_utf8(b@),
{
    std::str::from_utf8(b).is_ok()
}

/// The `X-Forwarded-For` value after a request from `client`: the prior
/// value, a comma and a space, then `client`; only `client` where there was
/// no prior value.
pub open spec fn forwarded_for(prior: Option<Seq<u8>>, client: Seq<u8>) -> Seq<u8> {
    match prior {
        Some(p) => p + seq![44u8, 32u8] + client,
        None => client,
    }
}

/// The headers `f` with `client` added to the forwarding chain, or `None`
/// where the prior chain is no text or the new one no header value.
pub open spec fn forwarded_fields(f: Map<Seq<u8>, Seq<Seq<u8>>>, client: Seq<u8>) -> Option<
    Map<Seq<u8>, Seq<Seq<u8>>>,
> {
    let prior = list_value(f, x_forwarded_for_name());
    let chain = forwarded_for(prior, client);
    if (prior matches Some(p) && !valid_utf8(p)) || !value_ok(chain) {
        None
    } else {
        Some(f.insert(x_forwarded_for_name(), seq![chain]))
    }
}

/// Adds the client's address to the `X-Forwarded-For` chain: the address
/// alone where there was none, else after the prior value and `", "`. Fails,
/// leaving the headers as they were, where the prior chain is no text, the
/// new one no header value, or the map too full to take one more name.
pub fn append_forwarded_for(headers: &mut HeaderMap, client_ip: &str) -> (r: Result<(), ProxyError>)
    ensures
        r is Ok <==> has_room(header_fields(*old(headers))) && forwarded_fields(
            header_fields(*old(headers)),
            client_ip.spec_bytes(),
        ) is Some,
        r is Ok ==> forwarded_fields(header_fields(*old(headers)), client_ip.spec_bytes()) == Some(
            header_fields(*final(headers)),
        ),
        r matches Err(e) ==> e is ForwardHeaderError && header_fields(*final(headers)) == header_fields(
            *old(headers),
        ),
{
    proof {
        lemma_fixed_names_are_keys();
    }
    if header_names_len(headers) >= MAX_HEADER_NAMES {
        return Err(ProxyError::ForwardHeaderError);
    }
    let name = x_forwarded_for_bytes();
    let client = client_ip.as_bytes();
    let chain = match header_list(headers, name.as_slice()) {
        None => {
            let mut c: Vec<u8> = Vec::new();
            c.extend_from_slice(client);
            c
        },
        Some(prior) => {
            if !is_utf8(prior.as_slice()) {
                return Err(ProxyError::ForwardHeaderError);
            }
            let mut c = prior;
            c.push(44u8);
            c.push(32u8);
            c.extend_from_slice(client);
            c
        },
    };
    assert(chain@ =~= forwarded_for(
        list_value(header_fields(*old(headers)), x_forwarded_for_name()),
        client_ip.spec_bytes(),
    ));
    if header_insert(headers, name.as_slice(), chain.as_slice()) {
        Ok(())
    } else {
        Err(ProxyError::ForwardHeaderError)
    }
}

/// The headers of the request sent on: those of `f` stripped of what belongs
/// to the client's connection, with `Host` set to `authority`, `TE: trailers`
/// kept where `f` accepted trailers, `Upgrade` and `Connection: upgrade` kept
/// where `f` asked to upgrade, and `client` added to the forwarding chain.
/// `None` where the upgrade protocol or the new chain is no header value, or
/// the prior chain no text.
pub open spec fn proxied_request_fields(
    f: Map<Seq<u8>, Seq<Seq<u8>>>,
    authority: Seq<u8>,
    client: Seq<u8>,
) -> Option<Map<Seq<u8>, Seq<Seq<u8>>>> {
    let s1 = stripped(f).insert(host_name(), seq![authority]);
    let s2 = if te_trailers(f) {
        s1.insert(te_name(), seq![trailers_name()])
    } else {
        s1
    };
    let up = upgrade_type(f);
    if up matches Some(u) && !value_ok(u) {
        None
    } else {
        let s3 = match up {
            Some(u) => s2.insert(upgrade_name(), seq![u]).insert(connection_name(), seq![upgrade_name()]),
            None => s2,
        };
        forwarded_fields(s3, client)
    }
}

/// The header names a request may hold when it is proxied: five more are
/// set on the way.
pub open spec fn request_has_room(f: Map<Seq<u8>, Seq<Seq<u8>>>) -> bool {
    f.dom().finite() && f.dom().len() + 5 < MAX_HEADER_NAMES
}

proof fn lemma_fixed_values_ok()
    ensures
        value_ok(trailers_name()),
        value_ok(upgrade_name()),
{
}

proof fn lemma_insert_room(f: Map<Seq<u8>, Seq<Seq<u8>>>, k: Seq<u8>, v: Seq<Seq<u8>>)
    requires
        f.dom().finite(),
    ensures
        f.insert(k, v).dom().finite(),
        f.insert(k, v).dom().len() <= f.dom().len() + 1,
{
    assert(f.insert(k, v).dom() =~= f.dom().insert(k));
}

/// Turns the headers of a client's request into those of the request sent
/// on to the origin, and returns the URI to send it to.
///
/// The URI is `build_forward_uri` of the target and the request's path and query;
/// it must parse and name an authority, else the result is `InvalidUri` and
/// the headers are left as they were. The headers become
/// `proxied_request_fields` of the old ones, of that authority and of the
/// client's address; where that is `None`, or the headers hold too many
/// names to take the five that are set, the result is `ForwardHeaderError`.
pub fn create_proxied_request(
    client_ip: &str,
    forward_url: &str,
    path: &str,
    query: Option<&str>,
    headers: &mut HeaderMap,
) -> (r: Result<String, ProxyError>)
    ensures
        ({
            let u = forward_uri_of(forward_url@, path@, opt_view(query));
            &&& r matches Ok(s) ==> s@ == u
            &&& (r matches Err(e) && e is InvalidUri) <==> !(uri_parses(u) && uri_authority(u) is Some)
            &&& (r matches Err(e) && e is InvalidUri) ==> header_fields(*final(headers)) == header_fields(*old(headers))
            &&& r matches Err(e) ==> !(e is HyperError)
            &&& (uri_parses(u) && uri_authority(u) is Some) ==> {
                let fields = proxied_request_fields(
                    header_fields(*old(headers)),
                    encode_utf8(uri_authority(u)->0),
                    client_ip.spec_bytes(),
                );
                &&& r is Ok <==> request_has_room(header_fields(*old(headers))) && fields is Some
                &&& !request_has_room(header_fields(*old(headers))) ==> header_fields(*final(headers)) == header_fields(*old(headers))
                &&& r is Ok ==> fields == Some(header_fields(*final(headers)))
            }
        }),
{
    let ghost f0 = header_fields(*headers);
    let trailers = wants_trailers(headers);
    let upgrade = get_upgrade_type(headers);
    let uri = build_forward_uri(forward_url, path, query);
    let authority = match parse_authority(uri.as_str()) {
        Some(Some(a)) => a,
        _ => return Err(ProxyError::InvalidUri),
    };
    if header_names_len(headers) >= MAX_HEADER_NAMES - 5 {
        return Err(ProxyError::ForwardHeaderError);
    }
    proof {
        lemma_fixed_names_are_keys();
        lemma_fixed_values_ok();
        lemma_visible_value_ok(authority@);
    }
    remove_connection_headers(headers);
    proof {
        vstd::set_lib::lemma_len_subset(header_fields(*headers).dom(), f0.dom());
    }
    let host = host_bytes();
    if !header_insert(headers, host.as_slice(), authority.as_str().as_bytes()) {
        return Err(ProxyError::ForwardHeaderError);
    }
    proof {
        lemma_insert_room(stripped(f0), host_name(), seq![encode_utf8(authority@)]);
    }
    if trailers {
        let te = te_bytes();
        let value = trailers_bytes();
        let ghost prev = header_fields(*headers);
        header_insert(headers, te.as_slice(), value.as_slice());
        proof {
            lemma_insert_room(prev, te_name(), seq![trailers_name()]);
        }
    }
    match upgrade {
        Some(u) => {
            let name = upgrade_bytes();
            let ghost prev = header_fields(*headers);
            if !header_insert(headers, name.as_slice(), u.as_slice()) {
                return Err(ProxyError::ForwardHeaderError);
            }
            proof {
                lemma_insert_room(prev, upgrade_name(), seq![u@]);
            }
            let conn = connection_bytes();
            let ghost prev2 = header_fields(*headers);
            header_insert(headers, conn.as_slice(), name.as_slice());
            proof {
                lemma_insert_room(prev2, connection_name(), seq![upgrade_name()]);
            }
        },
        None => {},
    }
    match append_forwarded_for(headers, client_ip) {
        Ok(()) => Ok(uri),
        Err(e) => Err(e),
    }
}

/// In the request sent on, no hop-by-hop header is left, whatever its case,
/// but for three that are set again on purpose: `TE`, holding exactly
/// `trailers`, where the client accepted trailers; and `Upgrade`, holding
/// the client's value, with `Connection: upgrade`, where the client asked to
/// upgrade.
pub proof fn lemma_proxied_request_hop_headers(
    f: Map<Seq<u8>, Seq<Seq<u8>>>,
    authority: Seq<u8>,
    client: Seq<u8>,
    name: Seq<u8>,
)
    requires
        proxied_request_fields(f, authority, client) is Some,
        header_key(name) matches Some(k) && hop_set().contains(k),
    ensures
        ({
            let g = proxied_request_fields(f, authority, client)->0;
            let k = header_key(name)->0;
            &&& (k != te_name() && k != upgrade_name() && k != connection_name()) ==> !g.contains_key(k)
            &&& k == te_name() ==> (g.contains_key(k) <==> te_trailers(f))
            &&& (k == te_name() && te_trailers(f)) ==> g[k] == seq![trailers_name()]
            &&& (k == upgrade_name() || k == connection_name()) ==> (g.contains_key(k) <==> upgrade_type(f) is Some)
            &&& (k == upgrade_name() && upgrade_type(f) is Some) ==> g[k] == seq![upgrade_type(f)->0]
            &&& (k == connection_name() && upgrade_type(f) is Some) ==> g[k] == seq![upgrade_name()]
        }),
{
    let k = header_key(name)->0;
    lemma_stripped_has_no_hop_header(f, name);
    assert(k != host_name());
    assert(k != x_forwarded_for_name());
    assert(te_name() != upgrade_name());
    assert(te_name() != connection_name());
    assert(upgrade_name() != connection_name());
    assert(te_name() != host_name());
    assert(te_name() != x_forwarded_for_name());
    assert(upgrade_name() != x_forwarded_for_name());
    assert(connection_name() != x_forwarded_for_name());
}

/// Adding a client to the forwarding chain: with no prior chain the new one
/// is the client's address alone; with a prior chain that is UTF-8 text it is
/// that chain, `", "` and the address; with a prior chain that is not text it
/// fails. Here the address and any prior chain hold header-value bytes and
/// the map has room for one more name.
pub proof fn lemma_forwarded_for_chain(f: Map<Seq<u8>, Seq<Seq<u8>>>, client: Seq<u8>)
    requires
        value_ok(client),
        list_value(f, x_forwarded_for_name()) matches Some(p) ==> value_ok(p),
    ensures
        list_value(f, x_forwarded_for_name()) is None ==> forwarded_fields(f, client) == Some(
            f.insert(x_forwarded_for_name(), seq![client]),
        ),
        ({
            let prior = list_value(f, x_forwarded_for_name());
            &&& (prior is Some && valid_utf8(prior->0)) ==> forwarded_fields(f, client) == Some(
                f.insert(x_forwarded_for_name(), seq![prior->0 + seq![44u8, 32u8] + client]),
            )
            &&& (prior is Some && !valid_utf8(prior->0)) ==> forwarded_fields(f, client) is None
        }),
{
    let prior = list_value(f, x_forwarded_for_name());
    if let Some(p) = prior {
        let chain = forwarded_for(prior, client);
        assert forall|i: int| 0 <= i < chain.len() implies value_byte_ok(#[trigger] chain[i]) by {
            if i < p.len() {
                assert(chain[i] == p[i]);
            } else if i < p.len() + 2 {
            } else {
                assert(chain[i] == client[i - p.len() - 2]);
            }
        }
    }
}

/// In the request sent on, `X-Forwarded-For` holds one value: the client's
/// address alone where the client sent no chain, else the chain it sent,
/// `", "` and the address. Building it fails only where the chain sent is no
/// UTF-8 text or no header value, the address is none, or the upgrade
/// protocol is no header value.
pub proof fn lemma_proxied_request_forwarded_for(
    f: Map<Seq<u8>, Seq<Seq<u8>>>,
    authority: Seq<u8>,
    client: Seq<u8>,
)
    ensures
        proxied_request_fields(f, authority, client) matches Some(g) ==> g[x_forwarded_for_name()]
            == seq![forwarded_for(list_value(stripped(f), x_forwarded_for_name()), client)],
        ({
            let prior = list_value(stripped(f), x_forwarded_for_name());
            &&& value_ok(client)
            &&& prior matches Some(p) ==> valid_utf8(p) && value_ok(p)
            &&& upgrade_type(f) matches Some(u) ==> value_ok(u)
        }) ==> proxied_request_fields(f, authority, client) is Some,
{
    let x = x_forwarded_for_name();
    assert(x != host_name());
    assert(x != te_name());
    assert(x != upgrade_name());
    assert(x != connection_name());
    let prior = list_value(stripped(f), x);
    if let Some(p) = prior {
        let chain = forwarded_for(prior, client);
        if value_ok(client) && value_ok(p) {
            assert forall|i: int| 0 <= i < chain.len() implies value_byte_ok(#[trigger] chain[i]) by {
                if i < p.len() {
                    assert(chain[i] == p[i]);
                } else if i < p.len() + 2 {
                } else {
                    assert(chain[i] == client[i - p.len() - 2]);
                }
            }
        }
    }
}

/// What the proxy does with the origin's answer.
#[derive(PartialEq, Eq, Structural, Debug, Clone, Copy)]
pub enum ResponseAction {
    /// The origin switched protocols: answer the client at once with the
    /// origin's status and headers as they are, and join the two upgraded
    /// connections.
    Splice,
    /// Any other answer: strip it with `create_proxied_response` and return it.
    Relay,
}

/// Decides what becomes of an origin's answer by its status: `Splice` for
/// exactly 101 Switching Protocols, `Relay` for every other status, errors
/// included.
pub fn response_action(status: u16) -> (r: ResponseAction)
    ensures
        r == (if status == 101 {
            ResponseAction::Splice
        } else {
            ResponseAction::Relay
        }),
{
    if status == 101 {
        ResponseAction::Splice
    } else {
        ResponseAction::Relay
    }
}

} // verus!
