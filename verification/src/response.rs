//! The response builders: `EmptyResponse` accumulates a status code and
//! headers; adding a content type turns it into a `FullResponse`, which
//! can also carry a body.  Rendering serializes the headers as
//! `Name: value` lines followed by a blank line and the body bytes; the
//! embedding program writes the rendered bytes to its output stream.

use crate::multipart::crlf;
use crate::strmap::kv_of;
use crate::text::dec_chars;
use crate::text::dec_string;
use crate::text::lower_chars;
use crate::text::lower_string;
use crate::text::str_eq;
use vstd::pervasive::VecAdditionalExecFns;
use vstd::prelude::*;
use vstd::string::StringExecFns;
use vstd::utf8::encode_utf8;

verus! {

/// The first position whose header name lower-cases to `key`.
pub open spec fn header_pos_from(
    hs: Seq<(Seq<char>, Seq<char>)>,
    key: Seq<char>,
    from: int,
) -> Option<int>
    decreases hs.len() - from,
{
    if from < 0 || from >= hs.len() {
        None
    } else if lower_chars(hs[from].0) == key {
        Some(from)
    } else {
        header_pos_from(hs, key, from + 1)
    }
}

/// `header_pos_from` finds exactly the first entry with the given key.
pub proof fn lemma_header_pos_from(hs: Seq<(Seq<char>, Seq<char>)>, key: Seq<char>, from: int)
    requires
        0 <= from,
    ensures
        match header_pos_from(hs, key, from) {
            Some(i) => from <= i < hs.len() && lower_chars(hs[i].0) == key && forall|j: int|
                from <= j < i ==> lower_chars(#[trigger] hs[j].0) != key,
            None => forall|j: int| from <= j < hs.len() ==> lower_chars(#[trigger] hs[j].0) != key,
        },
    decreases hs.len() - from,
{
    if from < hs.len() && lower_chars(hs[from].0) != key {
        lemma_header_pos_from(hs, key, from + 1);
    }
}

/// How adding a header changes the entry list: a new name is appended,
/// while a name already present (names differing only in case count as
/// the same) keeps its first spelling and has `, value` appended to its
/// value.
pub open spec fn add_header_spec(
    hs: Seq<(Seq<char>, Seq<char>)>,
    name: Seq<char>,
    value: Seq<char>,
) -> Seq<(Seq<char>, Seq<char>)> {
    match header_pos_from(hs, lower_chars(name), 0) {
        None => hs.push((name, value)),
        Some(i) => hs.update(i, (hs[i].0, hs[i].1 + ", "@ + value)),
    }
}

/// How the rendered status header changes the entry list: an entry keyed
/// `status` is replaced outright, name and value both.
pub open spec fn set_status_header_spec(
    hs: Seq<(Seq<char>, Seq<char>)>,
    status: u16,
) -> Seq<(Seq<char>, Seq<char>)> {
    let entry = ("Status"@, dec_chars(status as int));
    match header_pos_from(hs, "status"@, 0) {
        None => hs.push(entry),
        Some(i) => hs.update(i, entry),
    }
}

/// The serialized form of the header entries: one `Name: value` line per
/// entry, each ended by a newline sequence, in order.
pub open spec fn render_headers(hs: Seq<(Seq<char>, Seq<char>)>) -> Seq<u8>
    decreases hs.len(),
{
    if hs.len() == 0 {
        seq![]
    } else {
        render_headers(hs.drop_last()) + header_line(hs.last())
    }
}

/// The serialized form of one header entry.
pub open spec fn header_line(e: (Seq<char>, Seq<char>)) -> Seq<u8> {
    encode_utf8(e.0) + seq![58u8, 32u8] + encode_utf8(e.1) + crlf()
}

/// True when no two entries share a lower-cased name.
pub open spec fn header_names_unique(hs: Seq<(Seq<char>, Seq<char>)>) -> bool {
    forall|i: int, j: int|
        0 <= i < j < hs.len() ==> lower_chars(#[trigger] hs[i].0) != lower_chars(
            #[trigger] hs[j].0,
        )
}

/// Append a slice to a byte vector.
fn push_bytes(out: &mut Vec<u8>, s: &[u8])
    ensures
        final(out)@ == old(out)@ + s@,
{
    let n = s.len();
    let mut i: usize = 0;
    proof {
        assert(out@ + s@.take(0) =~= out@);
    }
    while i < n
        invariant
            i <= n,
            n == s@.len(),
            out@ == old(out)@ + s@.take(i as int),
        decreases n - i,
    {
        out.push(s[i]);
        proof {
            assert(old(out)@ + s@.take(i + 1) =~= (old(out)@ + s@.take(i as int)).push(
                s@[i as int],
            ));
        }
        i = i + 1;
    }
    proof {
        assert(s@.take(n as int) =~= s@);
    }
}

/// Serialize one header entry list.
fn render_header_block(hs: &Vec<(String, String)>) -> (r: Vec<u8>)
    ensures
        r@ == render_headers(kv_of(hs@)),
{
    let n = hs.len();
    let mut out: Vec<u8> = Vec::new();
    let mut i: usize = 0;
    proof {
        assert(kv_of(hs@).take(0) =~= Seq::<(Seq<char>, Seq<char>)>::empty());
        assert(render_headers(kv_of(hs@).take(0)) =~= Seq::<u8>::empty());
    }
    while i < n
        invariant
            i <= n,
            n == hs@.len(),
            out@ == render_headers(kv_of(hs@).take(i as int)),
        decreases n - i,
    {
        let e = &hs[i];
        push_bytes(&mut out, e.0.as_str().as_bytes());
        out.push(58);
        out.push(32);
        push_bytes(&mut out, e.1.as_str().as_bytes());
        out.push(13);
        out.push(10);
        proof {
            assert(kv_of(hs@).take(i + 1).drop_last() =~= kv_of(hs@).take(i as int));
            assert(kv_of(hs@).take(i + 1).last() == (hs@[i as int].0@, hs@[i as int].1@));
            assert(out@ =~= render_headers(kv_of(hs@).take(i as int)) + header_line(
                (hs@[i as int].0@, hs@[i as int].1@),
            ));
            assert(out@ =~= render_headers(kv_of(hs@).take(i + 1)));
        }
        i = i + 1;
    }
    proof {
        assert(kv_of(hs@).take(n as int) =~= kv_of(hs@));
    }
    out
}

/// Add a header to an entry list, concatenating the values of headers
/// whose names differ only in case.
fn add_header_entry(hs: &mut Vec<(String, String)>, name: &str, value: &str)
    requires
        header_names_unique(kv_of(old(hs)@)),
    ensures
        kv_of(final(hs)@) == add_header_spec(kv_of(old(hs)@), name@, value@),
        header_names_unique(kv_of(final(hs)@)),
{
    let ghost old_kv = kv_of(hs@);
    let key = lower_string(name);
    let n = hs.len();
    let mut i: usize = 0;
    while i < n
        invariant
            i <= n,
            n == hs@.len(),
            kv_of(hs@) == old_kv,
            old_kv == kv_of(old(hs)@),
            header_names_unique(old_kv),
            key@ == lower_chars(name@),
            forall|j: int| 0 <= j < i ==> lower_chars(#[trigger] old_kv[j].0) != key@,
        decreases n - i,
    {
        let ek = lower_string(hs[i].0.as_str());
        if str_eq(ek.as_str(), key.as_str()) {
            proof {
                assert(old_kv[i as int] == (hs@[i as int].0@, hs@[i as int].1@));
                assert(lower_chars(old_kv[i as int].0) == key@);
                lemma_header_pos_from(old_kv, key@, 0);
            }
            let en = hs[i].0.clone();
            let mut ev = hs[i].1.clone();
            ev.append(", ");
            ev.append(value);
            hs.set(i, (en, ev));
            proof {
                assert(kv_of(hs@) =~= old_kv.update(
                    i as int,
                    (old_kv[i as int].0, old_kv[i as int].1 + ", "@ + value@),
                ));
                assert(forall|j: int|
                    0 <= j < kv_of(hs@).len() ==> #[trigger] kv_of(hs@)[j].0 == old_kv[j].0);
                assert forall|a: int, b: int|
                    0 <= a < b < kv_of(hs@).len() implies lower_chars(
                    kv_of(hs@)[a].0,
                ) != lower_chars(kv_of(hs@)[b].0) by {
                    assert(kv_of(hs@)[a].0 == old_kv[a].0);
                    assert(kv_of(hs@)[b].0 == old_kv[b].0);
                }
                assert(header_names_unique(kv_of(hs@)));
            }
            return;
        }
        i = i + 1;
    }
    hs.push((String::from_str(name), String::from_str(value)));
    proof {
        lemma_header_pos_from(old_kv, key@, 0);
        assert(kv_of(hs@) =~= old_kv.push((name@, value@)));
        assert(forall|j: int| 0 <= j < old_kv.len() ==> kv_of(hs@)[j] == old_kv[j]);
    }
}

/// Look a header up in an entry list by its lower-cased name.
fn get_header_entry<'a>(hs: &'a Vec<(String, String)>, name: &str) -> (r: Option<&'a str>)
    ensures
        match header_pos_from(kv_of(hs@), lower_chars(name@), 0) {
            None => r is None,
            Some(i) => r matches Some(v) && v@ == kv_of(hs@)[i].1,
        },
{
    let key = lower_string(name);
    let n = hs.len();
    let mut i: usize = 0;
    while i < n
        invariant
            i <= n,
            n == hs@.len(),
            key@ == lower_chars(name@),
            forall|j: int| 0 <= j < i ==> lower_chars(#[trigger] kv_of(hs@)[j].0) != key@,
        decreases n - i,
    {
        let ek = lower_string(hs[i].0.as_str());
        if str_eq(ek.as_str(), key.as_str()) {
            proof {
                assert(kv_of(hs@)[i as int] == (hs@[i as int].0@, hs@[i as int].1@));
                assert(lower_chars(kv_of(hs@)[i as int].0) == key@);
                lemma_header_pos_from(kv_of(hs@), key@, 0);
            }
            return Some(hs[i].1.as_str());
        }
        i = i + 1;
    }
    proof {
        lemma_header_pos_from(kv_of(hs@), key@, 0);
    }
    None
}

/// Set the rendered status header in an entry list: an existing `status`
/// entry is replaced outright.
fn set_status_entry(hs: &mut Vec<(String, String)>, status: u16)
    ensures
        kv_of(final(hs)@) == set_status_header_spec(kv_of(old(hs)@), status),
{
    let ghost old_kv = kv_of(hs@);
    let value = dec_string(status as u64);
    let n = hs.len();
    let mut i: usize = 0;
    while i < n
        invariant
            i <= n,
            n == hs@.len(),
            kv_of(hs@) == old_kv,
            old_kv == kv_of(old(hs)@),
            value@ == dec_chars(status as int),
            forall|j: int| 0 <= j < i ==> lower_chars(#[trigger] old_kv[j].0) != "status"@,
        decreases n - i,
    {
        let ek = lower_string(hs[i].0.as_str());
        if str_eq(ek.as_str(), "status") {
            proof {
                assert(old_kv[i as int] == (hs@[i as int].0@, hs@[i as int].1@));
                assert(lower_chars(old_kv[i as int].0) == "status"@);
                lemma_header_pos_from(old_kv, "status"@, 0);
            }
            hs.set(i, (String::from_str("Status"), value));
            proof {
                assert(kv_of(hs@) =~= old_kv.update(
                    i as int,
                    ("Status"@, dec_chars(status as int)),
                ));
            }
            return;
        }
        i = i + 1;
    }
    hs.push((String::from_str("Status"), value));
    proof {
        lemma_header_pos_from(old_kv, "status"@, 0);
        assert(kv_of(hs@) =~= old_kv.push(("Status"@, dec_chars(status as int))));
    }
}

/// A response without a body.
///
/// Headers can be accumulated on it; calling `with_content_type` turns it
/// into a `FullResponse`, which can carry a body.
pub struct EmptyResponse {
    status: u16,
    headers: Vec<(String, String)>,
}

impl EmptyResponse {
    /// The response's status code.
    pub closed spec fn spec_status(&self) -> u16 {
        self.status
    }

    /// The response's header entries, in insertion order.
    pub closed spec fn spec_headers(&self) -> Seq<(Seq<char>, Seq<char>)> {
        kv_of(self.headers@)
    }

    #[verifier::type_invariant]
    spec fn inv(&self) -> bool {
        header_names_unique(kv_of(self.headers@))
    }

    /// Create a new, headerless, empty response with the given status
    /// code.
    pub fn new(status: u16) -> (r: EmptyResponse)
        ensures
            r.spec_status() == status,
            r.spec_headers() == Seq::<(Seq<char>, Seq<char>)>::empty(),
    {
        let r = EmptyResponse { status, headers: Vec::new() };
        proof {
            assert(kv_of(r.headers@) =~= Seq::<(Seq<char>, Seq<char>)>::empty());
        }
        r
    }

    /// Add a response header.  Adding a header whose name is already
    /// present (names differing only in case count as the same) appends
    /// `, value` to the existing value.
    pub fn add_header(&mut self, name: &str, value: &str)
        ensures
            final(self).spec_status() == old(self).spec_status(),
            final(self).spec_headers() == add_header_spec(old(self).spec_headers(), name@, value@),
    {
        proof {
            use_type_invariant(&*self);
        }
        let mut hs: Vec<(String, String)> = Vec::new();
        core::mem::swap(&mut self.headers, &mut hs);
        add_header_entry(&mut hs, name, value);
        self.headers = hs;
    }

    /// Add a response header, builder style.
    pub fn with_header(self, name: &str, value: &str) -> (r: EmptyResponse)
        ensures
            r.spec_status() == self.spec_status(),
            r.spec_headers() == add_header_spec(self.spec_headers(), name@, value@),
    {
        let mut new = self;
        new.add_header(name, value);
        new
    }

    /// Add a content type, turning this response into a `FullResponse`
    /// that can carry a body.
    pub fn with_content_type(self, content_type: &str) -> (r: FullResponse)
        ensures
            r.spec_status() == self.spec_status(),
            r.spec_headers() == self.spec_headers(),
            r.spec_content_type() == content_type@,
            r.spec_body() == Seq::<u8>::empty(),
    {
        proof {
            use_type_invariant(&self);
        }
        let r = FullResponse {
            status: self.status,
            headers: self.headers,
            content_type: String::from_str(content_type),
            body: Vec::new(),
        };
        proof {
            assert(r.body@ =~= Seq::<u8>::empty());
        }
        r
    }

    /// Return the response's status code.
    pub fn get_status(&self) -> (r: u16)
        ensures
            r == self.spec_status(),
    {
        self.status
    }

    /// Change the response's status code.
    pub fn set_status(&mut self, new_status: u16)
        ensures
            final(self).spec_status() == new_status,
            final(self).spec_headers() == old(self).spec_headers(),
    {
        proof {
            use_type_invariant(&*self);
        }
        self.status = new_status;
    }

    /// Return the value of the header `name`, if set.
    pub fn get_header<'a>(&'a self, name: &str) -> (r: Option<&'a str>)
        ensures
            match header_pos_from(self.spec_headers(), lower_chars(name@), 0) {
                None => r is None,
                Some(i) => r matches Some(v) && v@ == self.spec_headers()[i].1,
            },
    {
        get_header_entry(&self.headers, name)
    }

    /// Serialize this response: its headers with a `Status` header set
    /// from the status code (replacing any header of that name), followed
    /// by a blank line.  The embedding program writes these bytes to its
    /// output stream.
    pub fn render(self) -> (r: Vec<u8>)
        ensures
            r@ == render_headers(set_status_header_spec(self.spec_headers(), self.spec_status()))
                + crlf(),
    {
        let mut hs = self.headers;
        set_status_entry(&mut hs, self.status);
        let mut out = render_header_block(&hs);
        out.push(13);
        out.push(10);
        proof {
            assert(out@ =~= render_headers(kv_of(hs@)) + crlf());
        }
        out
    }
}

/// A response with a body, made from an `EmptyResponse` by adding a
/// content type.
pub struct FullResponse {
    status: u16,
    headers: Vec<(String, String)>,
    body: Vec<u8>,
    content_type: String,
}

impl FullResponse {
    /// The response's status code.
    pub closed spec fn spec_status(&self) -> u16 {
        self.status
    }

    /// The response's header entries, in insertion order.
    pub closed spec fn spec_headers(&self) -> Seq<(Seq<char>, Seq<char>)> {
        kv_of(self.headers@)
    }

    /// The response's content type.
    pub closed spec fn spec_content_type(&self) -> Seq<char> {
        self.content_type@
    }

    /// The response's body bytes.
    pub closed spec fn spec_body(&self) -> Seq<u8> {
        self.body@
    }

    #[verifier::type_invariant]
    spec fn inv(&self) -> bool {
        header_names_unique(kv_of(self.headers@))
    }

    /// Add a response header.  Adding a header whose name is already
    /// present (names differing only in case count as the same) appends
    /// `, value` to the existing value.
    pub fn add_header(&mut self, name: &str, value: &str)
        ensures
            final(self).spec_status() == old(self).spec_status(),
            final(self).spec_content_type() == old(self).spec_content_type(),
            final(self).spec_body() == old(self).spec_body(),
            final(self).spec_headers() == add_header_spec(old(self).spec_headers(), name@, value@),
    {
        proof {
            use_type_invariant(&*self);
        }
        let mut hs: Vec<(String, String)> = Vec::new();
        core::mem::swap(&mut self.headers, &mut hs);
        add_header_entry(&mut hs, name, value);
        self.headers = hs;
    }

    /// Add a response header, builder style.
    pub fn with_header(self, name: &str, value: &str) -> (r: FullResponse)
        ensures
            r.spec_status() == self.spec_status(),
            r.spec_content_type() == self.spec_content_type(),
            r.spec_body() == self.spec_body(),
            r.spec_headers() == add_header_spec(self.spec_headers(), name@, value@),
    {
        let mut new = self;
        new.add_header(name, value);
        new
    }

    /// Replace the response's body, builder style.
    pub fn with_body(self, new_body: &[u8]) -> (r: FullResponse)
        ensures
            r.spec_status() == self.spec_status(),
            r.spec_content_type() == self.spec_content_type(),
            r.spec_headers() == self.spec_headers(),
            r.spec_body() == new_body@,
    {
        proof {
            use_type_invariant(&self);
        }
        let mut new = self;
        new.body = vstd::slice::slice_to_vec(new_body);
        new
    }

    /// Append bytes to the response's body.
    pub fn append_body(&mut self, buf: &[u8])
        ensures
            final(self).spec_status() == old(self).spec_status(),
            final(self).spec_content_type() == old(self).spec_content_type(),
            final(self).spec_headers() == old(self).spec_headers(),
            final(self).spec_body() == old(self).spec_body() + buf@,
    {
        proof {
            use_type_invariant(&*self);
        }
        let mut body: Vec<u8> = Vec::new();
        core::mem::swap(&mut self.body, &mut body);
        push_bytes(&mut body, buf);
        self.body = body;
    }

    /// Return the response's status code.
    pub fn get_status(&self) -> (r: u16)
        ensures
            r == self.spec_status(),
    {
        self.status
    }

    /// Change the response's status code.
    pub fn set_status(&mut self, new_status: u16)
        ensures
            final(self).spec_status() == new_status,
            final(self).spec_headers() == old(self).spec_headers(),
            final(self).spec_content_type() == old(self).spec_content_type(),
            final(self).spec_body() == old(self).spec_body(),
    {
        proof {
            use_type_invariant(&*self);
        }
        self.status = new_status;
    }

    /// Return the value of the header `name`, if set.
    pub fn get_header<'a>(&'a self, name: &str) -> (r: Option<&'a str>)
        ensures
            match header_pos_from(self.spec_headers(), lower_chars(name@), 0) {
                None => r is None,
                Some(i) => r matches Some(v) && v@ == self.spec_headers()[i].1,
            },
    {
        get_header_entry(&self.headers, name)
    }

    /// Return the response's current body bytes.
    pub fn get_body(&self) -> (r: &[u8])
        ensures
            r@ == self.spec_body(),
    {
        self.body.as_slice()
    }

    /// Serialize this response: a `Status` header is added (concatenating
    /// with an existing one, as `add_header` does), and when the body is
    /// not empty a `Content-type` and a `Content-length` header are added
    /// the same way; then come all headers, a blank line, and the body.
    pub fn render(self) -> (r: Vec<u8>)
        ensures
            ({
                let with_status = add_header_spec(
                    self.spec_headers(),
                    "Status"@,
                    dec_chars(self.spec_status() as int),
                );
                let hs = if self.spec_body().len() > 0 {
                    add_header_spec(
                        add_header_spec(with_status, "Content-type"@, self.spec_content_type()),
                        "Content-length"@,
                        dec_chars(self.spec_body().len() as int),
                    )
                } else {
                    with_status
                };
                r@ == render_headers(hs) + crlf() + self.spec_body()
            }),
    {
        proof {
            use_type_invariant(&self);
        }
        let mut resp = self;
        let status_str = dec_string(resp.status as u64);
        let mut hs: Vec<(String, String)> = Vec::new();
        core::mem::swap(&mut resp.headers, &mut hs);
        add_header_entry(&mut hs, "Status", status_str.as_str());
        if resp.body.len() > 0 {
            let ct = resp.content_type.clone();
            add_header_entry(&mut hs, "Content-type", ct.as_str());
            let len_str = dec_string(resp.body.len() as u64);
            add_header_entry(&mut hs, "Content-length", len_str.as_str());
        }
        let mut out = render_header_block(&hs);
        out.push(13);
        out.push(10);
        proof {
            assert(out@ =~= render_headers(kv_of(hs@)) + crlf());
        }
        push_bytes(&mut out, resp.body.as_slice());
        out
    }
}

} // verus!
