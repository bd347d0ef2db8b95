//! The decisions behind the HTTP routes: who may use the admin routes, what
//! each failure is answered, and how a new manifest replaces the served one.
use vstd::prelude::*;
use vstd::slice::slice_subrange;
use vstd::string::StringSliceAdditionalSpecFns;

use crate::manifest::{first_problem, problem_message, EntryView, Manifest, VersionEntry};
use crate::render::{rendered_view, Rendered, RenderedView};
use crate::text::{append_str, debug_quoted, debug_str, opt_view, string_of};
use vstd::utf8::encode_utf8;

verus! {

/// Whether `a` and `b` hold the same bytes, compared without leaking the
/// token through timing. Length is not secret.
pub fn constant_time_eq(a: &[u8], b: &[u8]) -> (r: bool)
    ensures
        r == (a@ == b@),
{
    if a.len() != b.len() {
        return false;
    }
    let mut difference: u8 = 0;
    let mut i: usize = 0;
    assert(a@.take(0) =~= b@.take(0));
    while i < a.len()
        invariant
            a@.len() == b@.len(),
            i <= a.len(),
            (difference == 0) <==> (a@.take(i as int) == b@.take(i as int)),
        decreases a.len() - i,
    {
        let x = a[i];
        let y = b[i];
        let next = difference | (x ^ y);
        assert((next == 0) <==> (difference == 0 && x == y)) by (bit_vector)
            requires
                next == difference | (x ^ y),
        ;
        assert(a@.take(i + 1) =~= a@.take(i as int).push(x));
        assert(b@.take(i + 1) =~= b@.take(i as int).push(y));
        proof {
            if difference == 0 && x == y {
                assert(a@.take(i + 1) =~= b@.take(i + 1));
            }
        }
        assert((next == 0) <==> (a@.take(i + 1) == b@.take(i + 1))) by {
            if a@.take(i + 1) == b@.take(i + 1) {
                assert(a@.take(i + 1)[i as int] == b@.take(i + 1)[i as int]);
                assert(a@.take(i as int) =~= a@.take(i + 1).drop_last());
                assert(b@.take(i as int) =~= b@.take(i + 1).drop_last());
            }
        }
        difference = next;
        i = i + 1;
    }
    assert(a@.take(a.len() as int) =~= a@);
    assert(b@.take(b.len() as int) =~= b@);
    difference == 0
}

/// The bytes of `Bearer `, the scheme the admin routes accept.
pub open spec fn bearer_prefix() -> Seq<u8> {
    seq![66u8, 101u8, 97u8, 114u8, 101u8, 114u8, 32u8]
}

/// Whether an `Authorization` header with the bytes `header` presents the
/// token `token`: the header is `Bearer ` followed by exactly the token.
pub open spec fn presents_token(header: Seq<u8>, token: Seq<u8>) -> bool {
    &&& header.len() >= 7
    &&& header.take(7) == bearer_prefix()
    &&& header.skip(7) == token
}

/// A header presents a token exactly when it is the bytes of `Bearer `
/// followed by exactly the token's bytes, whatever their length.
pub proof fn lemma_presents_token_exactly(header: Seq<u8>, token: Seq<u8>)
    ensures
        presents_token(header, token) <==> header == bearer_prefix() + token,
        bearer_prefix().len() == 7,
        forall|i: int| 0 <= i < 7 ==> bearer_prefix()[i] as u32 == #[trigger] "Bearer "@[i] as u32,
{
    reveal_strlit("Bearer ");
    if header == bearer_prefix() + token {
        assert(header.take(7) =~= bearer_prefix());
        assert(header.skip(7) =~= token);
    }
    if presents_token(header, token) {
        assert(header =~= header.take(7) + header.skip(7));
    }
}

/// Whether a request whose `Authorization` header reads `header` (`None`
/// when it is absent or not visible ASCII) may use the admin routes.
pub fn is_authorized(header: Option<&str>, admin_token: &str) -> (r: bool)
    ensures
        r == (header matches Some(h) && presents_token(h.spec_bytes(), admin_token.spec_bytes())),
{
    match header {
        None => false,
        Some(h) => {
            let bytes = h.as_bytes();
            let token = admin_token.as_bytes();
            if bytes.len() < 7 {
                return false;
            }
            let prefix = bytes[0] == 66u8 && bytes[1] == 101u8 && bytes[2] == 97u8 && bytes[3]
                == 114u8 && bytes[4] == 101u8 && bytes[5] == 114u8 && bytes[6] == 32u8;
            if prefix {
                assert(bytes@.take(7) =~= bearer_prefix());
            } else {
                assert(bytes@.take(7) != bearer_prefix()) by {
                    if bytes@.take(7) == bearer_prefix() {
                        assert(bytes@.take(7)[0] == bytes@[0]);
                        assert(bytes@.take(7)[1] == bytes@[1]);
                        assert(bytes@.take(7)[2] == bytes@[2]);
                        assert(bytes@.take(7)[3] == bytes@[3]);
                        assert(bytes@.take(7)[4] == bytes@[4]);
                        assert(bytes@.take(7)[5] == bytes@[5]);
                        assert(bytes@.take(7)[6] == bytes@[6]);
                    }
                }
                return false;
            }
            let presented = slice_subrange(bytes, 7, bytes.len());
            assert(presented@ =~= bytes@.skip(7));
            constant_time_eq(presented, token)
        },
    }
}

/// Whether a configured admin token can be used: an empty one would let
/// anyone presenting `Bearer ` in.
pub fn admin_token_is_set(admin_token: &str) -> (r: bool)
    ensures
        r == (admin_token@.len() > 0),
{
    !admin_token.is_empty()
}

/// How a request fails.
pub enum AppError {
    Unauthorized,
    NotFound(&'static str),
    Invalid(String),
    /// The text of an error the server could not recover from; it is logged,
    /// not sent.
    Internal(String),
}

/// The status code and the message each failure is answered with.
pub open spec fn error_response(e: AppError) -> (u16, Seq<char>) {
    match e {
        AppError::Unauthorized => (401, "missing or invalid bearer token"@),
        AppError::NotFound(message) => (404, message@),
        AppError::Invalid(message) => (400, message@),
        AppError::Internal(_) => (500, "internal error"@),
    }
}

impl AppError {
    /// The status code and the message the failure is answered with.
    pub fn status_and_message(&self) -> (r: (u16, String))
        ensures
            (r.0, r.1@) == error_response(*self),
    {
        match self {
            AppError::Unauthorized => (401, string_of("missing or invalid bearer token")),
            AppError::NotFound(message) => (404, string_of(message)),
            AppError::Invalid(message) => (400, message.clone()),
            AppError::Internal(_) => (500, string_of("internal error")),
        }
    }
}

/// What the install file and the legacy reinstall route point at: the newest
/// full download, or a 404 when none is published.
pub fn install_target(rendered: &Rendered) -> (r: Result<String, AppError>)
    ensures
        match r {
            Ok(url) => rendered@.install_txt == Some(url@),
            Err(e) => rendered@.install_txt is None && (e matches AppError::NotFound(message)
                && message@ == "no full download is published"@),
        },
{
    match &rendered.install_txt {
        Some(url) => Ok(url.clone()),
        None => Err(AppError::NotFound("no full download is published")),
    }
}

/// Whether `bytes` may stand in an HTTP header value: every byte is 32 or
/// more, other than 127 (so bytes from 128 up are accepted), or is a tab.
pub open spec fn is_header_value(bytes: Seq<u8>) -> bool {
    forall|i: int|
        0 <= i < bytes.len() ==> (#[trigger] bytes[i] >= 32 && bytes[i] != 127) || bytes[i] == 9
}

/// `axum::http::HeaderValue::from_str`, asked only whether it accepts `s`: it
/// does exactly when every byte of `s` is 32 or more other than 127, or a tab.
#[verifier::external_body]
fn header_value_accepts(s: &str) -> (r: bool)
    ensures
        r == is_header_value(s.spec_bytes()),
{
    axum::http::HeaderValue::from_str(s).is_ok()
}

/// Where the legacy reinstall route redirects old clients: the newest full
/// download; a 404 when none is published, and a 500 when it cannot stand in
/// a `Location` header.
pub fn legacy_location(rendered: &Rendered) -> (r: Result<String, AppError>)
    ensures
        match rendered@.install_txt {
            None => (r matches Err(AppError::NotFound(message)) && message@
                == "no full download is published"@),
            Some(url) => if is_header_value(encode_utf8(url)) {
                (r matches Ok(location) && location@ == url)
            } else {
                (r matches Err(AppError::Internal(text)) && text@
                    == "full download url is not a valid header: "@ + debug_quoted(url))
            },
        },
{
    let url = install_target(rendered)?;
    if header_value_accepts(url.as_str()) {
        Ok(url)
    } else {
        let mut text = string_of("full download url is not a valid header: ");
        let quoted = debug_str(url.as_str());
        append_str(&mut text, quoted.as_str());
        Err(AppError::Internal(text))
    }
}

/// What the admin routes answer after a change.
pub struct Summary {
    pub versions: usize,
    pub latest: Option<String>,
    pub install: Option<String>,
}

/// The manifest being served, and the files rendered from it.
pub struct Served {
    manifest: Manifest,
    rendered: Rendered,
}

impl Served {
    /// A served manifest always passed validation, and its files are rendered from it.
    #[verifier::type_invariant]
    spec fn consistent(self) -> bool {
        &&& first_problem(self.manifest@) is None
        &&& self.rendered@ == rendered_view(self.manifest@)
    }

    pub closed spec fn manifest_view(self) -> Seq<EntryView> {
        self.manifest@
    }

    pub closed spec fn rendered_files(self) -> RenderedView {
        self.rendered@
    }

    /// Starts serving `manifest`, when it is valid.
    pub fn load(manifest: Manifest) -> (r: Result<Served, String>)
        ensures
            r is Ok <==> first_problem(manifest@) is None,
            r matches Ok(s) ==> s.manifest_view() == manifest@,
            r matches Err(message) ==> message@ == problem_message(first_problem(manifest@)->0),
    {
        match manifest.validate() {
            Ok(()) => {
                let rendered = manifest.render();
                Ok(Served { manifest, rendered })
            },
            Err(message) => Err(message),
        }
    }

    /// A replacement for the served manifest, validated and rendered, to be
    /// committed once it has been persisted; a 400 when it is invalid.
    pub fn stage(manifest: Manifest) -> (r: Result<Served, AppError>)
        ensures
            r is Ok <==> first_problem(manifest@) is None,
            r matches Ok(s) ==> s.manifest_view() == manifest@,
            r matches Err(e) ==> e matches AppError::Invalid(message) && message@
                == problem_message(first_problem(manifest@)->0),
    {
        match Served::load(manifest) {
            Ok(s) => Ok(s),
            Err(message) => Err(AppError::Invalid(message)),
        }
    }

    /// Swaps in `staged` once writing it out succeeded; when writing failed,
    /// the served manifest and files are left untouched and the failure is
    /// answered with a 500.
    pub fn commit(&mut self, staged: Served, persisted: Result<(), String>) -> (r: Result<
        (),
        AppError,
    >)
        ensures
            match persisted {
                Ok(()) => r is Ok && final(self).manifest_view() == staged.manifest_view()
                    && final(self).rendered_files() == staged.rendered_files(),
                Err(e) => (r matches Err(AppError::Internal(text)) && text == e)
                    && final(self).manifest_view() == old(self).manifest_view()
                    && final(self).rendered_files() == old(self).rendered_files(),
            },
    {
        match persisted {
            Ok(()) => {
                *self = staged;
                Ok(())
            },
            Err(e) => Err(AppError::Internal(e)),
        }
    }

    /// The served manifest.
    pub fn manifest(&self) -> (r: &Manifest)
        ensures
            r@ == self.manifest_view(),
            first_problem(r@) is None,
    {
        proof {
            use_type_invariant(self);
        }
        &self.manifest
    }

    /// The files rendered from the served manifest.
    pub fn rendered(&self) -> (r: &Rendered)
        ensures
            r@ == self.rendered_files(),
            r@ == rendered_view(self.manifest_view()),
    {
        proof {
            use_type_invariant(self);
        }
        &self.rendered
    }

    /// The served manifest with `entry` appended as its newest release.
    pub fn with_appended(&self, entry: VersionEntry) -> (r: Manifest)
        ensures
            r@ == self.manifest_view().push(entry@),
    {
        let mut manifest = self.manifest.copy();
        let ghost before = manifest@;
        manifest.versions.push(entry);
        assert(manifest@ =~= before.push(entry@));
        manifest
    }
}

impl Summary {
    /// The summary of what `served` serves.
    pub fn of(served: &Served) -> (r: Summary)
        ensures
            r.versions == served.manifest_view().len(),
            opt_view(r.latest) == (if served.manifest_view().len() == 0 {
                None
            } else {
                Some(served.manifest_view().last().version)
            }),
            opt_view(r.install) == served.rendered_files().install_txt,
    {
        let manifest = served.manifest();
        let rendered = served.rendered();
        let n = manifest.versions.len();
        let latest = if n == 0 {
            None
        } else {
            assert(manifest@.last() == manifest.versions@[n - 1]@);
            Some(manifest.versions[n - 1].version.clone())
        };
        let install = match &rendered.install_txt {
            Some(url) => Some(url.clone()),
            None => None,
        };
        Summary { versions: n, latest, install }
    }
}

} // verus!
