//! What the download of an image has to decide: how a registry's challenge
//! is read, how an image's address is cut into name and tag, and which file a
//! whiteout marks as removed.

use crate::error::Error;
use crate::header::{is_text, utf8_text};
use crate::path::{bytes_equal, copy_range, index_of, lemma_index_of, position};
use vstd::prelude::*;
use vstd::slice::slice_subrange;
use vstd::string::StringExecFns;
use vstd::utf8::{decode_utf8, valid_utf8};

verus! {

/// The status with which a registry asks for a token.
pub const UNAUTHORIZED: u16 = 401;

/// The bytes `Bearer ` that open a challenge.
pub open spec fn bearer_prefix() -> Seq<u8> {
    seq![0x42u8, 0x65u8, 0x61u8, 0x72u8, 0x65u8, 0x72u8, 0x20u8]
}

/// The key `realm`.
pub open spec fn realm_key() -> Seq<u8> {
    seq![0x72u8, 0x65u8, 0x61u8, 0x6cu8, 0x6du8]
}

/// The key `service`.
pub open spec fn service_key() -> Seq<u8> {
    seq![0x73u8, 0x65u8, 0x72u8, 0x76u8, 0x69u8, 0x63u8, 0x65u8]
}

/// The key `scope`.
pub open spec fn scope_key() -> Seq<u8> {
    seq![0x73u8, 0x63u8, 0x6fu8, 0x70u8, 0x65u8]
}

/// The byte `=`.
pub const EQUALS: u8 = 0x3d;

/// The byte `"`.
pub const QUOTE: u8 = 0x22;

/// The byte `,`.
pub const COMMA: u8 = 0x2c;

/// The byte `:`.
pub const COLON: u8 = 0x3a;

/// The byte `/`.
pub const SLASH: u8 = 0x2f;

/// The values that a challenge has given so far.
pub struct Fields {
    pub realm: Option<Seq<u8>>,
    pub service: Option<Seq<u8>>,
    pub scope: Option<Seq<u8>>,
}

/// The fields with `value` given to `key`, or `None` for a key that is not
/// known. A key that comes again gets the later value.
pub open spec fn with_pair(f: Fields, key: Seq<u8>, value: Seq<u8>) -> Option<Fields> {
    if key == realm_key() {
        Some(Fields { realm: Some(value), ..f })
    } else if key == service_key() {
        Some(Fields { service: Some(value), ..f })
    } else if key == scope_key() {
        Some(Fields { scope: Some(value), ..f })
    } else {
        None
    }
}

/// The fields after the pairs of `rest` have been read: each pair is a key,
/// an equals sign and a value in quotes, and a comma stands between two
/// pairs. `None` where `rest` is not of this form, where a value is not
/// text, or where a key is not known.
pub open spec fn pairs(rest: Seq<u8>, f: Fields) -> Option<Fields>
    decreases rest.len(),
{
    let eq = index_of(rest, EQUALS);
    if eq < 0 || eq + 1 >= rest.len() || rest[eq + 1] != QUOTE {
        None
    } else {
        let after = rest.skip(eq + 2);
        let q = index_of(after, QUOTE);
        if q < 0 || q >= after.len() || !valid_utf8(after.take(q)) {
            None
        } else {
            match with_pair(f, rest.take(eq), after.take(q)) {
                None => None,
                Some(g) => {
                    let end = eq + 2 + q;
                    if rest.len() == end + 1 {
                        Some(g)
                    } else if rest[end + 1] != COMMA {
                        None
                    } else {
                        pairs(rest.skip(end + 2), g)
                    }
                },
            }
        }
    }
}

/// What a challenge asks for: where to get a token, for which service and
/// for which scope. `None` where the header does not begin with `Bearer `,
/// is malformed, or leaves one of the three out.
pub open spec fn challenge_of(header: Seq<u8>) -> Option<(Seq<u8>, Seq<u8>, Seq<u8>)> {
    if header.len() < 7 || header.take(7) != bearer_prefix() {
        None
    } else {
        match pairs(header.skip(7), Fields { realm: None, service: None, scope: None }) {
            Some(Fields { realm: Some(r), service: Some(s), scope: Some(c) }) => Some((r, s, c)),
            _ => None,
        }
    }
}

/// A registry's challenge: where to get a token, for which service and for
/// which scope. The three values are text.
#[derive(Debug)]
pub struct BearerChallenge {
    pub realm: Vec<u8>,
    pub service: Vec<u8>,
    pub scope: Vec<u8>,
}

impl View for BearerChallenge {
    type V = (Seq<u8>, Seq<u8>, Seq<u8>);

    open spec fn view(&self) -> (Seq<u8>, Seq<u8>, Seq<u8>) {
        (self.realm@, self.service@, self.scope@)
    }
}

/// The view of a value that may be missing.
pub open spec fn opt_view(v: Option<Vec<u8>>) -> Option<Seq<u8>> {
    match v {
        Some(x) => Some(x@),
        None => None,
    }
}

/// Reads the header with which a registry asks for a token.
pub fn parse_bearer_challenge(header: &[u8]) -> (r: Result<BearerChallenge, Error>)
    ensures
        match r {
            Ok(c) => challenge_of(header@) == Some(c@),
            Err(e) => challenge_of(header@) is None && e == Error::Format,
        },
        r matches Ok(c) ==> valid_utf8(c.realm@) && valid_utf8(c.service@) && valid_utf8(c.scope@),
{
    let prefix: [u8; 7] = [0x42, 0x65, 0x61, 0x72, 0x65, 0x72, 0x20];
    let realm_name: [u8; 5] = [0x72, 0x65, 0x61, 0x6c, 0x6d];
    let service_name: [u8; 7] = [0x73, 0x65, 0x72, 0x76, 0x69, 0x63, 0x65];
    let scope_name: [u8; 5] = [0x73, 0x63, 0x6f, 0x70, 0x65];
    proof {
        assert(prefix@ =~= bearer_prefix());
        assert(realm_name@ =~= realm_key());
        assert(service_name@ =~= service_key());
        assert(scope_name@ =~= scope_key());
    }
    if header.len() < 7 {
        return Err(Error::Format);
    }
    let start = slice_subrange(header, 0, 7);
    assert(start@ =~= header@.take(7));
    if !bytes_equal(start, prefix.as_slice()) {
        return Err(Error::Format);
    }
    let mut realm: Option<Vec<u8>> = None;
    let mut service: Option<Vec<u8>> = None;
    let mut scope: Option<Vec<u8>> = None;
    let mut pos: usize = 7;
    let ghost none = Fields { realm: None, service: None, scope: None };
    loop
        invariant
            7 <= pos <= header@.len(),
            header@.len() >= 7,
            header@.take(7) == bearer_prefix(),
            none == (Fields { realm: None, service: None, scope: None }),
            realm_name@ == realm_key(),
            service_name@ == service_key(),
            scope_name@ == scope_key(),
            realm matches Some(v) ==> valid_utf8(v@),
            service matches Some(v) ==> valid_utf8(v@),
            scope matches Some(v) ==> valid_utf8(v@),
            pairs(header@.skip(7), none) == pairs(
                header@.skip(pos as int),
                Fields {
                    realm: opt_view(realm),
                    service: opt_view(service),
                    scope: opt_view(scope),
                },
            ),
        decreases header@.len() - pos,
    {
        let rest = slice_subrange(header, pos, header.len());
        assert(rest@ =~= header@.skip(pos as int));
        let eq = position(rest, EQUALS);
        proof {
            lemma_index_of(rest@, EQUALS);
        }
        if eq >= rest.len() || rest.len() - eq < 2 || rest[eq + 1] != QUOTE {
            return Err(Error::Format);
        }
        let after = slice_subrange(rest, eq + 2, rest.len());
        assert(after@ =~= rest@.skip(eq + 2));
        let q = position(after, QUOTE);
        proof {
            lemma_index_of(after@, QUOTE);
        }
        if q >= after.len() {
            return Err(Error::Format);
        }
        let key = slice_subrange(rest, 0, eq);
        let value = slice_subrange(after, 0, q);
        assert(key@ =~= rest@.take(eq as int));
        assert(value@ =~= after@.take(q as int));
        if !is_text(value) {
            return Err(Error::Format);
        }
        let owned = copy_range(value, 0, q);
        assert(owned@ =~= value@);
        if bytes_equal(key, realm_name.as_slice()) {
            realm = Some(owned);
        } else if bytes_equal(key, service_name.as_slice()) {
            service = Some(owned);
        } else if bytes_equal(key, scope_name.as_slice()) {
            scope = Some(owned);
        } else {
            return Err(Error::Format);
        }
        let end = eq + 2 + q;
        if rest.len() == end + 1 {
            return match (realm, service, scope) {
                (Some(realm), Some(service), Some(scope)) => Ok(
                    BearerChallenge { realm, service, scope },
                ),
                _ => Err(Error::Format),
            };
        }
        if rest[end + 1] != COMMA {
            return Err(Error::Format);
        }
        proof {
            assert(rest@.skip(end + 2) =~= header@.skip(pos + end + 2));
        }
        pos = pos + end + 2;
    }
}

/// What is done with a registry's answer.
#[derive(Debug)]
pub enum Answer {
    /// The answer is what was asked for.
    Accept,
    /// A token has to be fetched as the challenge says, and the request made
    /// again with it.
    Authenticate(BearerChallenge),
}

/// What the status and the challenge headers of an answer call for: any
/// status but 401 is taken as it is; with 401 there must be one challenge,
/// and it must be well formed.
pub open spec fn answer_of(status: u16, challenges: Seq<Seq<u8>>) -> Option<
    Option<(Seq<u8>, Seq<u8>, Seq<u8>)>,
> {
    if status != UNAUTHORIZED {
        Some(None)
    } else if challenges.len() != 1 {
        None
    } else {
        match challenge_of(challenges[0]) {
            Some(c) => Some(Some(c)),
            None => None,
        }
    }
}

/// Decides what to do with a registry's answer.
pub fn on_response(status: u16, challenges: &Vec<Vec<u8>>) -> (r: Result<Answer, Error>)
    ensures
        match r {
            Ok(Answer::Accept) => answer_of(
                status,
                Seq::new(challenges@.len(), |i: int| challenges@[i]@),
            ) == Some(None::<(Seq<u8>, Seq<u8>, Seq<u8>)>),
            Ok(Answer::Authenticate(c)) => answer_of(
                status,
                Seq::new(challenges@.len(), |i: int| challenges@[i]@),
            ) == Some(Some(c@)),
            Err(e) => answer_of(status, Seq::new(challenges@.len(), |i: int| challenges@[i]@))
                is None && e == Error::Format,
        },
{
    if status != UNAUTHORIZED {
        return Ok(Answer::Accept);
    }
    if challenges.len() != 1 {
        return Err(Error::Format);
    }
    match parse_bearer_challenge(challenges[0].as_slice()) {
        Ok(c) => Ok(Answer::Authenticate(c)),
        Err(e) => Err(e),
    }
}

/// The name and the tag of an image, as the path of its address gives them:
/// the path starts with a slash, the name follows up to the first colon, and
/// the tag is what comes after it. Both must be text.
pub open spec fn reference_of(path: Seq<u8>) -> Option<(Seq<char>, Seq<char>)> {
    let colon = index_of(path, COLON);
    if path.len() == 0 || path[0] != SLASH || colon >= path.len() || !valid_utf8(
        path.subrange(1, colon),
    ) || !valid_utf8(path.skip(colon + 1)) {
        None
    } else {
        Some((decode_utf8(path.subrange(1, colon)), decode_utf8(path.skip(colon + 1))))
    }
}

/// An image's name and tag.
#[derive(Debug)]
pub struct ImageReference {
    pub name: String,
    pub tag: String,
}

impl View for ImageReference {
    type V = (Seq<char>, Seq<char>);

    open spec fn view(&self) -> (Seq<char>, Seq<char>) {
        (self.name@, self.tag@)
    }
}

/// Cuts the path of an image's address into name and tag.
pub fn split_image_reference(path: &[u8]) -> (r: Result<ImageReference, Error>)
    ensures
        match r {
            Ok(x) => reference_of(path@) == Some(x@),
            Err(e) => reference_of(path@) is None && e == Error::Format,
        },
{
    if path.len() == 0 || path[0] != SLASH {
        return Err(Error::Format);
    }
    let colon = position(path, COLON);
    proof {
        lemma_index_of(path@, COLON);
    }
    if colon >= path.len() {
        return Err(Error::Format);
    }
    let name_bytes = slice_subrange(path, 1, colon);
    let tag_bytes = slice_subrange(path, colon + 1, path.len());
    assert(tag_bytes@ =~= path@.skip(colon + 1));
    match (utf8_text(name_bytes), utf8_text(tag_bytes)) {
        (Some(name), Some(tag)) => Ok(
            ImageReference { name: String::from_str(name), tag: String::from_str(tag) },
        ),
        _ => Err(Error::Format),
    }
}

/// Where a registry keeps the manifest of an image, below its root: the
/// name, `/manifests/` and the tag.
pub open spec fn manifest_path_of(name: Seq<char>, tag: Seq<char>) -> Seq<char> {
    name + "/manifests/"@ + tag
}

/// Where a registry keeps a blob of an image, below its root: the name,
/// `/blobs/` and the blob's digest.
pub open spec fn blob_path_of(name: Seq<char>, digest: Seq<char>) -> Seq<char> {
    name + "/blobs/"@ + digest
}

/// Says where a registry keeps the manifest of an image.
pub fn manifest_path(name: &str, tag: &str) -> (r: String)
    ensures
        r@ == manifest_path_of(name@, tag@),
{
    let mut path = String::from_str(name);
    path.append("/manifests/");
    path.append(tag);
    path
}

/// Says where a registry keeps a blob of an image.
pub fn blob_path(name: &str, digest: &str) -> (r: String)
    ensures
        r@ == blob_path_of(name@, digest@),
{
    let mut path = String::from_str(name);
    path.append("/blobs/");
    path.append(digest);
    path
}

/// The names of `names`, each once, in the order in which they first come.
pub open spec fn unique_of(names: Seq<Seq<char>>) -> Seq<Seq<char>>
    decreases names.len(),
{
    if names.len() == 0 {
        Seq::empty()
    } else {
        let before = unique_of(names.drop_last());
        if before.contains(names.last()) {
            before
        } else {
            before.push(names.last())
        }
    }
}

/// The texts of a list.
pub open spec fn texts(names: Seq<String>) -> Seq<Seq<char>> {
    Seq::new(names.len(), |i: int| names[i]@)
}

/// Lists each of `names` once, so that a blob that several layers name is
/// fetched and removed once.
pub fn unique_names(names: &Vec<String>) -> (r: Vec<String>)
    ensures
        texts(r@) == unique_of(texts(names@)),
{
    let ghost all = texts(names@);
    let mut out: Vec<String> = Vec::new();
    let mut i: usize = 0;
    proof {
        assert(texts(out@) =~= unique_of(all.take(0)));
    }
    while i < names.len()
        invariant
            i <= names@.len(),
            all == texts(names@),
            texts(out@) == unique_of(all.take(i as int)),
        decreases names@.len() - i,
    {
        let ghost seen = texts(out@);
        let mut j: usize = 0;
        let mut known = false;
        while j < out.len() && !known
            invariant
                j <= out@.len(),
                i < names@.len(),
                seen == texts(out@),
                all == texts(names@),
                !known ==> forall|q: int| 0 <= q < j ==> seen[q] != all[i as int],
                known ==> seen.contains(all[i as int]),
            decreases out@.len() - j + if known { 0int } else { 1int },
        {
            assert(seen[j as int] == out@[j as int]@);
            assert(all[i as int] == names@[i as int]@);
            if out[j] == names[i] {
                known = true;
            } else {
                j += 1;
            }
        }
        proof {
            let now = all.take(i + 1);
            assert(now.drop_last() =~= all.take(i as int));
            assert(now.last() == all[i as int]);
            assert(known == seen.contains(all[i as int]));
        }
        if !known {
            let name = names[i].clone();
            out.push(name);
            proof {
                assert(texts(out@) =~= seen.push(all[i as int]));
            }
        }
        i += 1;
    }
    proof {
        assert(all.take(i as int) =~= all);
    }
    out
}

/// The bytes `.wh.` with which the name of a whiteout begins.
pub open spec fn whiteout_prefix() -> Seq<u8> {
    seq![0x2eu8, 0x77u8, 0x68u8, 0x2eu8]
}

/// The name of the file that a whiteout marks as removed: the name of the
/// whiteout without `.wh.` in front.
pub open spec fn whiteout_target_of(name: Seq<u8>) -> Option<Seq<u8>> {
    if name.len() >= 4 && name.take(4) == whiteout_prefix() {
        Some(name.skip(4))
    } else {
        None
    }
}

/// Finds the name of the file that a whiteout marks as removed.
pub fn whiteout_target(name: &[u8]) -> (r: Result<Vec<u8>, Error>)
    ensures
        match r {
            Ok(t) => whiteout_target_of(name@) == Some(t@),
            Err(e) => whiteout_target_of(name@) is None && e == Error::Format,
        },
{
    let prefix: [u8; 4] = [0x2e, 0x77, 0x68, 0x2e];
    assert(prefix@ =~= whiteout_prefix());
    if name.len() < 4 {
        return Err(Error::Format);
    }
    let start = slice_subrange(name, 0, 4);
    assert(start@ =~= name@.take(4));
    if !bytes_equal(start, prefix.as_slice()) {
        return Err(Error::Format);
    }
    let target = copy_range(name, 4, name.len());
    assert(target@ =~= name@.skip(4));
    Ok(target)
}

} // verus!
