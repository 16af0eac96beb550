//! The certificate in use, the files that it is kept in, and the plain port that
//! sends visitors to the encrypted one.

use rustls::pki_types::pem::PemObject;
use rustls::pki_types::CertificateDer;
use vstd::prelude::*;
use vstd::slice::slice_to_vec;
use vstd::utf8::encode_utf8;

use crate::protocol::sent::byte_views;
use crate::text::{decimal, owned, put_decimal, put_str, string_of, utf8_of};

verus! {

/// When the two files of a certificate were last written, in nanoseconds since the
/// Unix epoch.
#[derive(Debug, Clone, Copy, PartialEq, Eq, Structural)]
pub struct Modified {
    pub cert: u128,
    pub key: u128,
}

/// The certificate in use, of whatever type the TLS library keeps one in, and the
/// state of its files when it was read.
pub struct HotCertResolver<K> {
    current: Option<K>,
    loaded: Option<Modified>,
}

impl<K> HotCertResolver<K> {
    pub closed spec fn certificate(&self) -> Option<K> {
        self.current
    }

    pub closed spec fn read_at(&self) -> Option<Modified> {
        self.loaded
    }

    pub fn new() -> (r: Self)
        ensures
            r.certificate() is None,
            r.read_at() is None,
    {
        HotCertResolver { current: None, loaded: None }
    }

    pub fn has_cert(&self) -> (r: bool)
        ensures
            r == self.certificate() is Some,
    {
        self.current.is_some()
    }

    /// The certificate that a handshake is answered with.
    pub fn resolve(&self) -> (r: Option<&K>)
        ensures
            r is Some == self.certificate() is Some,
            r matches Some(k) ==> self.certificate() == Some(*k),
    {
        self.current.as_ref()
    }

    /// Takes what was read from the files, which were last written at `at`. Where
    /// reading failed, the certificate before it stays in use.
    pub fn reload<E>(&mut self, at: Modified, read: Result<K, E>) -> (r: Result<(), E>)
        ensures
            match read {
                Ok(k) => r is Ok && final(self).certificate() == Some(k) && final(self).read_at() == Some(at),
                Err(e) => r == Err::<(), E>(e) && *final(self) == *old(self),
            },
    {
        match read {
            Ok(k) => {
                self.current = Some(k);
                self.loaded = Some(at);
                Ok(())
            },
            Err(e) => Err(e),
        }
    }

    /// Whether the files have to be read: either was written at another time than when
    /// they were last read.
    pub fn changed(&self, at: Modified) -> (r: bool)
        ensures
            r == (self.read_at() != Some(at)),
    {
        match self.loaded {
            Some(l) => l != at,
            None => true,
        }
    }

    /// Takes what the files hold if they changed; says whether they did.
    pub fn reload_if_changed<E>(&mut self, at: Modified, read: Result<K, E>) -> (r: Result<bool, E>)
        ensures
            if old(self).read_at() == Some(at) {
                r == Ok::<bool, E>(false) && *final(self) == *old(self)
            } else {
                match read {
                    Ok(k) => r == Ok::<bool, E>(true) && final(self).certificate() == Some(k) && final(self).read_at()
                        == Some(at),
                    Err(e) => r == Err::<bool, E>(e) && *final(self) == *old(self),
                }
            },
    {
        if !self.changed(at) {
            return Ok(false);
        }
        match self.reload(at, read) {
            Ok(_) => Ok(true),
            Err(e) => Err(e),
        }
    }
}

/// A file to replace as a whole.
#[derive(Debug)]
pub struct FileWrite {
    pub path: String,
    pub data: Vec<u8>,
    /// Readable by its owner only.
    pub private: bool,
}

impl FileWrite {
    pub open spec fn is(&self, path: Seq<char>, data: Seq<u8>, private: bool) -> bool {
        self.path@ == path && self.data@ == data && self.private == private
    }
}

/// How putting a certificate and its key in place ended.
#[derive(Debug, Clone, Copy, PartialEq, Eq, Structural)]
pub enum PairEnd {
    /// Both files hold the new pair.
    Written,
    /// Both files hold what they held before.
    Kept,
    /// The certificate could not be written, nor the key before it be put back.
    Torn,
}

/// What is done next to put a certificate and its key in place.
#[derive(Debug)]
pub enum PairMove {
    Put(FileWrite),
    /// A file that was not there before goes again.
    Delete(String),
    Stop(PairEnd),
}

/// What is done next to put a pair in place: a path, what is written there and whether in
/// private; a path where a file is deleted; or the end.
pub enum PairStep {
    Put(Seq<char>, Seq<u8>, bool),
    Delete(Seq<char>),
    Stop(PairEnd),
}

impl View for PairMove {
    type V = PairStep;

    open spec fn view(&self) -> PairStep {
        match *self {
            PairMove::Put(w) => PairStep::Put(w.path@, w.data@, w.private),
            PairMove::Delete(p) => PairStep::Delete(p@),
            PairMove::Stop(e) => PairStep::Stop(e),
        }
    }
}

/// A certificate and its key, and where they go.
pub struct Pair {
    pub cert_path: Seq<char>,
    pub cert: Seq<u8>,
    pub key_path: Seq<char>,
    pub key: Seq<u8>,
}

impl Pair {
    /// What is done next, after what was done so far succeeded or failed: the key is
    /// written, in private, and then the certificate. Where the certificate cannot be
    /// written, the key that was there before is put back.
    pub open spec fn step(self, key_before: Option<Seq<u8>>, results: Seq<bool>) -> PairStep {
        if results.len() == 0 {
            PairStep::Put(self.key_path, self.key, true)
        } else if !results[0] {
            PairStep::Stop(PairEnd::Kept)
        } else if results.len() == 1 {
            PairStep::Put(self.cert_path, self.cert, false)
        } else if results[1] {
            PairStep::Stop(PairEnd::Written)
        } else if results.len() == 2 {
            match key_before {
                Some(k) => PairStep::Put(self.key_path, k, true),
                None => PairStep::Delete(self.key_path),
            }
        } else if results[2] {
            PairStep::Stop(PairEnd::Kept)
        } else {
            PairStep::Stop(PairEnd::Torn)
        }
    }

    /// What the files hold after the steps with these results. A step that fails leaves
    /// its file as it was.
    pub open spec fn files_after(self, files: Map<Seq<char>, Seq<u8>>, results: Seq<bool>) -> Map<Seq<char>, Seq<u8>>
        decreases results.len(),
    {
        if results.len() == 0 {
            files
        } else {
            let before = self.files_after(files, results.drop_last());
            match self.step(held_at(files, self.key_path), results.drop_last()) {
                PairStep::Put(path, data, _) if results.last() => before.insert(path, data),
                PairStep::Delete(path) if results.last() => before.remove(path),
                _ => before,
            }
        }
    }
}

/// What a file holds, where it is there.
pub open spec fn held_at(files: Map<Seq<char>, Seq<u8>>, path: Seq<char>) -> Option<Seq<u8>> {
    if files.contains_key(path) {
        Some(files[path])
    } else {
        None
    }
}

/// What is done next to put a certificate and its key in place, given what the file of the
/// key held before and whether each step so far succeeded.
pub fn write_pem_pair(
    cert_path: &str,
    cert_pem: &str,
    key_path: &str,
    key_pem: &str,
    key_before: Option<&[u8]>,
    results: &[bool],
) -> (r: PairMove)
    ensures
        r@ == (Pair {
            cert_path: cert_path@,
            cert: encode_utf8(cert_pem@),
            key_path: key_path@,
            key: encode_utf8(key_pem@),
        }).step(
            match key_before {
                Some(k) => Some(k@),
                None => None,
            },
            results@,
        ),
{
    if results.len() == 0 {
        PairMove::Put(FileWrite { path: owned(key_path), data: utf8_of(key_pem), private: true })
    } else if !results[0] {
        PairMove::Stop(PairEnd::Kept)
    } else if results.len() == 1 {
        PairMove::Put(FileWrite { path: owned(cert_path), data: utf8_of(cert_pem), private: false })
    } else if results[1] {
        PairMove::Stop(PairEnd::Written)
    } else if results.len() == 2 {
        match key_before {
            Some(k) => PairMove::Put(FileWrite { path: owned(key_path), data: slice_to_vec(k), private: true }),
            None => PairMove::Delete(owned(key_path)),
        }
    } else if results[2] {
        PairMove::Stop(PairEnd::Kept)
    } else {
        PairMove::Stop(PairEnd::Torn)
    }
}

/// A pair is written whole or not at all: at the end both files hold the new pair, or all
/// files hold what they held before. Only where putting the key back fails too is it
/// neither, and then the end says so.
pub proof fn pairs_are_written_whole(p: Pair, files: Map<Seq<char>, Seq<u8>>, results: Seq<bool>)
    requires
        p.cert_path != p.key_path,
    ensures
        ({
            let after = p.files_after(files, results);
            match p.step(held_at(files, p.key_path), results) {
                PairStep::Stop(PairEnd::Written) => after == files.insert(p.key_path, p.key).insert(p.cert_path, p.cert),
                PairStep::Stop(PairEnd::Kept) => after == files,
                PairStep::Stop(PairEnd::Torn) => results.len() >= 3 && !results[2],
                _ => results.len() < 3,
            }
        }),
    decreases results.len(),
{
    if results.len() > 0 {
        let d = results.drop_last();
        pairs_are_written_whole(p, files, d);
        assert forall|i: int| 0 <= i < d.len() implies d[i] == results[i] by {}
        if results.len() <= 3 {
            reveal_with_fuel(Pair::files_after, 4);
            if results.len() == 3 {
                assert(d.drop_last().drop_last() =~= Seq::<bool>::empty());
                assert(d.drop_last()[0] == results[0] && d[0] == results[0] && d[1] == results[1]);
                assert(files.insert(p.key_path, p.key).remove(p.key_path) =~= files.remove(p.key_path));
                if files.contains_key(p.key_path) {
                    assert(files.insert(p.key_path, p.key).insert(p.key_path, files[p.key_path]) =~= files);
                } else {
                    assert(files.remove(p.key_path) =~= files);
                }
            } else if results.len() == 2 {
                assert(d.drop_last() =~= Seq::<bool>::empty());
            } else {
                assert(d =~= Seq::<bool>::empty());
            }
        }
    }
}

// ── The chain of a certificate ───────────────────────────────────────────────

/// The certificates that a file in the PEM format holds, in order; nothing where a section
/// of it is malformed.
pub uninterp spec fn pem_certificates(file: Seq<u8>) -> Option<Seq<Seq<u8>>>;

/// `rustls::pki_types::CertificateDer::pem_slice_iter`, up to the first error: the
/// certificates, or nothing where there is an error; a function of the bytes alone.
#[verifier::external_body]
fn read_certificates(file: &[u8]) -> (r: Option<Vec<Vec<u8>>>)
    ensures
        match r {
            Some(v) => pem_certificates(file@) == Some(byte_views(v@)),
            None => pem_certificates(file@) is None,
        },
{
    CertificateDer::pem_slice_iter(file).map(|c| Some(c.ok()?.to_vec())).collect()
}

/// Why a file gives no chain.
#[derive(Debug, Clone, Copy, PartialEq, Eq, Structural)]
pub enum ChainError {
    /// A section of the file is malformed.
    Invalid,
    /// The file holds no certificate.
    Empty,
}

/// The chain that certificates make, which are nothing where they cannot be read: there has
/// to be one at least.
pub fn chain_of(certificates: Option<Vec<Vec<u8>>>) -> (r: Result<Vec<Vec<u8>>, ChainError>)
    ensures
        r == match certificates {
            Some(v) if v@.len() > 0 => Ok::<Vec<Vec<u8>>, ChainError>(v),
            Some(_) => Err(ChainError::Empty),
            None => Err(ChainError::Invalid),
        },
{
    match certificates {
        Some(v) => if v.len() > 0 {
            Ok(v)
        } else {
            Err(ChainError::Empty)
        },
        None => Err(ChainError::Invalid),
    }
}

/// The chain of certificates that a file in the PEM format holds.
pub fn certificate_chain(file: &[u8]) -> (r: Result<Vec<Vec<u8>>, ChainError>)
    ensures
        match (pem_certificates(file@), r) {
            (Some(c), Ok(v)) => c.len() > 0 && byte_views(v@) == c,
            (Some(c), Err(e)) => c.len() == 0 && e is Empty,
            (None, r) => r == Err::<Vec<Vec<u8>>, ChainError>(ChainError::Invalid),
        },
{
    let read = read_certificates(file);
    assert(read matches Some(v) ==> byte_views(v@).len() == v@.len());
    chain_of(read)
}

/// Where visitors of the plain port are sent: `https://domain[:port]`, from the
/// settings, never from the request.
#[derive(Debug)]
pub struct RedirectTarget {
    pub base: String,
}

/// The base of a domain and a port; the port of HTTPS is left out.
pub open spec fn https_base(domain: Seq<char>, port: int) -> Seq<char> {
    if port == 443 {
        "https://"@ + domain
    } else {
        "https://"@ + domain + ":"@ + decimal(port as nat)
    }
}

impl RedirectTarget {
    pub fn new(domain: &str, public_port: u16) -> (r: Self)
        ensures
            r.base@ == https_base(domain@, public_port as int),
    {
        let mut v: Vec<char> = Vec::new();
        put_str(&mut v, "https://");
        put_str(&mut v, domain);
        if public_port != 443 {
            put_str(&mut v, ":");
            put_decimal(&mut v, public_port as u64);
        }
        assert(v@ =~= https_base(domain@, public_port as int));
        RedirectTarget { base: string_of(&v) }
    }

    /// Where a request for a path, with its query, is sent.
    pub fn location(&self, path_and_query: Option<&str>) -> (r: String)
        ensures
            r@ == self.base@ + match path_and_query {
                Some(p) => p@,
                None => "/"@,
            },
    {
        let mut v: Vec<char> = Vec::new();
        put_str(&mut v, &self.base);
        match path_and_query {
            Some(p) => put_str(&mut v, p),
            None => put_str(&mut v, "/"),
        }
        assert(v@ =~= self.base@ + match path_and_query {
            Some(p) => p@,
            None => "/"@,
        });
        string_of(&v)
    }
}

/// A request for HTTP is sent on to the same domain with HTTPS; the port is named where it is
/// not that of HTTPS.
pub proof fn requests_are_sent_on_to_https(domain: Seq<char>, port: u16)
    ensures
        https_base(domain, 443) == "https://"@ + domain,
        port != 443 ==> https_base(domain, port as int) == "https://"@ + domain + ":"@ + decimal(port as nat),
{
}

/// A pair is written key first, which only its owner may read, and then the certificate; where
/// that fails, the key before it is put back.
pub proof fn pairs_are_written_key_first(p: Pair, before: Option<Seq<u8>>)
    ensures
        p.step(before, Seq::empty()) == PairStep::Put(p.key_path, p.key, true),
        p.step(before, seq![true]) == PairStep::Put(p.cert_path, p.cert, false),
        p.step(before, seq![false]) == PairStep::Stop(PairEnd::Kept),
        p.step(before, seq![true, true]) == PairStep::Stop(PairEnd::Written),
        before matches Some(k) ==> p.step(before, seq![true, false]) == PairStep::Put(p.key_path, k, true),
        before is None ==> p.step(before, seq![true, false]) == PairStep::Delete(p.key_path),
        p.step(before, seq![true, false, true]) == PairStep::Stop(PairEnd::Kept),
        p.step(before, seq![true, false, false]) == PairStep::Stop(PairEnd::Torn),
{
}

} // verus!
