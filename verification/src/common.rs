//! The wire protocol: request and response frames, in the same
//! self-delimiting text-tagged format as the log records.
//!
//! A connection carries one request frame followed by one response frame,
//! repeated.  Requests are tagged `G`, `S` or `R`; responses are tagged
//! `V`/`N`/`E` for `Get` and `O`/`E` for `Set` and `Remove`.

use vstd::prelude::*;
use vstd::string::*;

use crate::codec::{
    append_field, chars_to_string, dec_str, decode_field, enc_str, lemma_dec_enc_str,
    lemma_subrange_split,
};

verus! {

/// A request sent from a client to the server.
#[derive(Debug, Clone)]
pub enum Request {
    Get { key: String },
    Put { key: String, value: String },
    Remove { key: String },
}

/// The mathematical form of a request.
pub enum RequestView {
    Get { key: Seq<char> },
    Put { key: Seq<char>, value: Seq<char> },
    Remove { key: Seq<char> },
}

impl View for Request {
    type V = RequestView;

    open spec fn view(&self) -> RequestView {
        match self {
            Request::Get { key } => (RequestView::Get { key: key@ }),
            Request::Put { key, value } => (RequestView::Put { key: key@, value: value@ }),
            Request::Remove { key } => (RequestView::Remove { key: key@ }),
        }
    }
}

/// The server's answer to a `Get`: the value (or its absence), or a
/// failure message.
#[derive(Debug, Clone)]
pub enum GetResponse {
    Success(Option<String>),
    Failure(String),
}

/// The mathematical form of a `Get` answer.
pub enum GetResponseView {
    Success(Option<Seq<char>>),
    Failure(Seq<char>),
}

impl View for GetResponse {
    type V = GetResponseView;

    open spec fn view(&self) -> GetResponseView {
        match self {
            GetResponse::Success(v) => GetResponseView::Success(
                match v {
                    Some(s) => Some(s@),
                    None => None,
                },
            ),
            GetResponse::Failure(m) => GetResponseView::Failure(m@),
        }
    }
}

/// The server's answer to a `Set`.
#[derive(Debug, Clone)]
pub enum SetResponse {
    Success,
    Failure(String),
}

/// The mathematical form of a `Set` answer.
pub enum SetResponseView {
    Success,
    Failure(Seq<char>),
}

impl View for SetResponse {
    type V = SetResponseView;

    open spec fn view(&self) -> SetResponseView {
        match self {
            SetResponse::Success => SetResponseView::Success,
            SetResponse::Failure(m) => SetResponseView::Failure(m@),
        }
    }
}

/// The server's answer to a `Remove`.
#[derive(Debug, Clone)]
pub enum RemoveResponse {
    Success,
    Failure(String),
}

/// The mathematical form of a `Remove` answer.
pub enum RemoveResponseView {
    Success,
    Failure(Seq<char>),
}

impl View for RemoveResponse {
    type V = RemoveResponseView;

    open spec fn view(&self) -> RemoveResponseView {
        match self {
            RemoveResponse::Success => RemoveResponseView::Success,
            RemoveResponse::Failure(m) => RemoveResponseView::Failure(m@),
        }
    }
}

/// The encoding of one request frame.
pub open spec fn enc_request(r: RequestView) -> Seq<char> {
    match r {
        RequestView::Get { key } => seq!['G'] + enc_str(key),
        RequestView::Put { key, value } => seq!['S'] + enc_str(key) + enc_str(value),
        RequestView::Remove { key } => seq!['R'] + enc_str(key),
    }
}

/// Decodes one request frame starting at `pos`.
pub open spec fn dec_request(s: Seq<char>, pos: int) -> Option<(RequestView, int)> {
    if 0 <= pos < s.len() {
        if s[pos] == 'G' {
            match dec_str(s, pos + 1) {
                Some(kr) => Some((RequestView::Get { key: kr.0 }, kr.1)),
                None => None,
            }
        } else if s[pos] == 'S' {
            match dec_str(s, pos + 1) {
                Some(kr) => match dec_str(s, kr.1) {
                    Some(vr) => Some((RequestView::Put { key: kr.0, value: vr.0 }, vr.1)),
                    None => None,
                },
                None => None,
            }
        } else if s[pos] == 'R' {
            match dec_str(s, pos + 1) {
                Some(kr) => Some((RequestView::Remove { key: kr.0 }, kr.1)),
                None => None,
            }
        } else {
            None
        }
    } else {
        None
    }
}

/// The encoding of one `Get` answer frame.
pub open spec fn enc_get_response(r: GetResponseView) -> Seq<char> {
    match r {
        GetResponseView::Success(Some(v)) => seq!['V'] + enc_str(v),
        GetResponseView::Success(None) => seq!['N'],
        GetResponseView::Failure(m) => seq!['E'] + enc_str(m),
    }
}

/// Decodes one `Get` answer frame starting at `pos`.
pub open spec fn dec_get_response(s: Seq<char>, pos: int) -> Option<(GetResponseView, int)> {
    if 0 <= pos < s.len() {
        if s[pos] == 'V' {
            match dec_str(s, pos + 1) {
                Some(vr) => Some((GetResponseView::Success(Some(vr.0)), vr.1)),
                None => None,
            }
        } else if s[pos] == 'N' {
            Some((GetResponseView::Success(None), pos + 1))
        } else if s[pos] == 'E' {
            match dec_str(s, pos + 1) {
                Some(mr) => Some((GetResponseView::Failure(mr.0), mr.1)),
                None => None,
            }
        } else {
            None
        }
    } else {
        None
    }
}

/// The encoding of one `Set` answer frame.
pub open spec fn enc_set_response(r: SetResponseView) -> Seq<char> {
    match r {
        SetResponseView::Success => seq!['O'],
        SetResponseView::Failure(m) => seq!['E'] + enc_str(m),
    }
}

/// Decodes one `Set` answer frame starting at `pos`.
pub open spec fn dec_set_response(s: Seq<char>, pos: int) -> Option<(SetResponseView, int)> {
    if 0 <= pos < s.len() {
        if s[pos] == 'O' {
            Some((SetResponseView::Success, pos + 1))
        } else if s[pos] == 'E' {
            match dec_str(s, pos + 1) {
                Some(mr) => Some((SetResponseView::Failure(mr.0), mr.1)),
                None => None,
            }
        } else {
            None
        }
    } else {
        None
    }
}

/// The encoding of one `Remove` answer frame.
pub open spec fn enc_remove_response(r: RemoveResponseView) -> Seq<char> {
    match r {
        RemoveResponseView::Success => seq!['O'],
        RemoveResponseView::Failure(m) => seq!['E'] + enc_str(m),
    }
}

/// Decodes one `Remove` answer frame starting at `pos`.
pub open spec fn dec_remove_response(s: Seq<char>, pos: int) -> Option<(RemoveResponseView, int)> {
    if 0 <= pos < s.len() {
        if s[pos] == 'O' {
            Some((RemoveResponseView::Success, pos + 1))
        } else if s[pos] == 'E' {
            match dec_str(s, pos + 1) {
                Some(mr) => Some((RemoveResponseView::Failure(mr.0), mr.1)),
                None => None,
            }
        } else {
            None
        }
    } else {
        None
    }
}

/// Encodes one request frame.
pub fn encode_request(req: &Request) -> (out: String)
    ensures
        out@ == enc_request(req@),
{
    let mut buf: Vec<char> = Vec::new();
    match req {
        Request::Get { key } => {
            buf.push('G');
            append_field(&mut buf, key.as_str());
            proof {
                assert(Seq::<char>::empty() + seq!['G'] + enc_str(key@) =~= enc_request(req@));
            }
        },
        Request::Put { key, value } => {
            buf.push('S');
            append_field(&mut buf, key.as_str());
            append_field(&mut buf, value.as_str());
            proof {
                assert(Seq::<char>::empty() + seq!['S'] + enc_str(key@) + enc_str(value@)
                    =~= enc_request(req@));
            }
        },
        Request::Remove { key } => {
            buf.push('R');
            append_field(&mut buf, key.as_str());
            proof {
                assert(Seq::<char>::empty() + seq!['R'] + enc_str(key@) =~= enc_request(req@));
            }
        },
    }
    chars_to_string(&buf)
}

/// Decodes one request frame of `data` starting at `pos`; mirrors
/// `dec_request`.
pub fn decode_request(data: &Vec<char>, pos: usize) -> (r: Option<(Request, usize)>)
    ensures
        match r {
            Some(p) => dec_request(data@, pos as int) == Some((p.0@, p.1 as int)),
            None => dec_request(data@, pos as int) is None,
        },
{
    if pos >= data.len() {
        return None;
    }
    let tag = data[pos];
    if tag == 'G' {
        match decode_field(data, pos + 1) {
            Some((k, q)) => Some((Request::Get { key: chars_to_string(&k) }, q)),
            None => None,
        }
    } else if tag == 'S' {
        match decode_field(data, pos + 1) {
            Some((k, q)) => match decode_field(data, q) {
                Some((v, end)) => Some(
                    (Request::Put { key: chars_to_string(&k), value: chars_to_string(&v) }, end),
                ),
                None => None,
            },
            None => None,
        }
    } else if tag == 'R' {
        match decode_field(data, pos + 1) {
            Some((k, q)) => Some((Request::Remove { key: chars_to_string(&k) }, q)),
            None => None,
        }
    } else {
        None
    }
}

/// Encodes one `Get` answer frame.
pub fn encode_get_response(resp: &GetResponse) -> (out: String)
    ensures
        out@ == enc_get_response(resp@),
{
    let mut buf: Vec<char> = Vec::new();
    match resp {
        GetResponse::Success(Some(v)) => {
            buf.push('V');
            append_field(&mut buf, v.as_str());
            proof {
                assert(Seq::<char>::empty() + seq!['V'] + enc_str(v@) =~= enc_get_response(
                    resp@,
                ));
            }
        },
        GetResponse::Success(None) => {
            buf.push('N');
            proof {
                assert(Seq::<char>::empty().push('N') =~= enc_get_response(resp@));
            }
        },
        GetResponse::Failure(m) => {
            buf.push('E');
            append_field(&mut buf, m.as_str());
            proof {
                assert(Seq::<char>::empty() + seq!['E'] + enc_str(m@) =~= enc_get_response(
                    resp@,
                ));
            }
        },
    }
    chars_to_string(&buf)
}

/// Decodes one `Get` answer frame of `data` starting at `pos`; mirrors
/// `dec_get_response`.
pub fn decode_get_response(data: &Vec<char>, pos: usize) -> (r: Option<(GetResponse, usize)>)
    ensures
        match r {
            Some(p) => dec_get_response(data@, pos as int) == Some((p.0@, p.1 as int)),
            None => dec_get_response(data@, pos as int) is None,
        },
{
    if pos >= data.len() {
        return None;
    }
    let tag = data[pos];
    if tag == 'V' {
        match decode_field(data, pos + 1) {
            Some((v, q)) => Some((GetResponse::Success(Some(chars_to_string(&v))), q)),
            None => None,
        }
    } else if tag == 'N' {
        Some((GetResponse::Success(None), pos + 1))
    } else if tag == 'E' {
        match decode_field(data, pos + 1) {
            Some((m, q)) => Some((GetResponse::Failure(chars_to_string(&m)), q)),
            None => None,
        }
    } else {
        None
    }
}

/// Encodes one `Set` answer frame.
pub fn encode_set_response(resp: &SetResponse) -> (out: String)
    ensures
        out@ == enc_set_response(resp@),
{
    let mut buf: Vec<char> = Vec::new();
    match resp {
        SetResponse::Success => {
            buf.push('O');
            proof {
                assert(Seq::<char>::empty().push('O') =~= enc_set_response(resp@));
            }
        },
        SetResponse::Failure(m) => {
            buf.push('E');
            append_field(&mut buf, m.as_str());
            proof {
                assert(Seq::<char>::empty() + seq!['E'] + enc_str(m@) =~= enc_set_response(
                    resp@,
                ));
            }
        },
    }
    chars_to_string(&buf)
}

/// Decodes one `Set` answer frame of `data` starting at `pos`; mirrors
/// `dec_set_response`.
pub fn decode_set_response(data: &Vec<char>, pos: usize) -> (r: Option<(SetResponse, usize)>)
    ensures
        match r {
            Some(p) => dec_set_response(data@, pos as int) == Some((p.0@, p.1 as int)),
            None => dec_set_response(data@, pos as int) is None,
        },
{
    if pos >= data.len() {
        return None;
    }
    let tag = data[pos];
    if tag == 'O' {
        Some((SetResponse::Success, pos + 1))
    } else if tag == 'E' {
        match decode_field(data, pos + 1) {
            Some((m, q)) => Some((SetResponse::Failure(chars_to_string(&m)), q)),
            None => None,
        }
    } else {
        None
    }
}

/// Encodes one `Remove` answer frame.
pub fn encode_remove_response(resp: &RemoveResponse) -> (out: String)
    ensures
        out@ == enc_remove_response(resp@),
{
    let mut buf: Vec<char> = Vec::new();
    match resp {
        RemoveResponse::Success => {
            buf.push('O');
            proof {
                assert(Seq::<char>::empty().push('O') =~= enc_remove_response(resp@));
            }
        },
        RemoveResponse::Failure(m) => {
            buf.push('E');
            append_field(&mut buf, m.as_str());
            proof {
                assert(Seq::<char>::empty() + seq!['E'] + enc_str(m@) =~= enc_remove_response(
                    resp@,
                ));
            }
        },
    }
    chars_to_string(&buf)
}

/// Decodes one `Remove` answer frame of `data` starting at `pos`;
/// mirrors `dec_remove_response`.
pub fn decode_remove_response(data: &Vec<char>, pos: usize) -> (r: Option<(RemoveResponse, usize)>)
    ensures
        match r {
            Some(p) => dec_remove_response(data@, pos as int) == Some((p.0@, p.1 as int)),
            None => dec_remove_response(data@, pos as int) is None,
        },
{
    if pos >= data.len() {
        return None;
    }
    let tag = data[pos];
    if tag == 'O' {
        Some((RemoveResponse::Success, pos + 1))
    } else if tag == 'E' {
        match decode_field(data, pos + 1) {
            Some((m, q)) => Some((RemoveResponse::Failure(chars_to_string(&m)), q)),
            None => None,
        }
    } else {
        None
    }
}

/// A request decodes from its own encoding wherever it sits in a stream.
pub proof fn lemma_request_round_trip(w: Seq<char>, pos: int, r: RequestView)
    requires
        0 <= pos,
        pos + enc_request(r).len() <= w.len(),
        w.subrange(pos, pos + enc_request(r).len() as int) == enc_request(r),
    ensures
        dec_request(w, pos) == Some((r, pos + enc_request(r).len() as int)),
{
    match r {
        RequestView::Get { key } => {
            let ek = enc_str(key);
            assert(enc_request(r) =~= seq!['G'] + ek);
            lemma_subrange_split(w, pos, seq!['G'], ek);
            assert(w[pos] == w.subrange(pos, pos + 1)[0]);
            lemma_dec_enc_str(w, pos + 1, key);
        },
        RequestView::Put { key, value } => {
            let ek = enc_str(key);
            let ev = enc_str(value);
            assert(enc_request(r) =~= seq!['S'] + (ek + ev));
            lemma_subrange_split(w, pos, seq!['S'], ek + ev);
            assert(w[pos] == w.subrange(pos, pos + 1)[0]);
            lemma_subrange_split(w, pos + 1, ek, ev);
            lemma_dec_enc_str(w, pos + 1, key);
            lemma_dec_enc_str(w, pos + 1 + ek.len() as int, value);
        },
        RequestView::Remove { key } => {
            let ek = enc_str(key);
            assert(enc_request(r) =~= seq!['R'] + ek);
            lemma_subrange_split(w, pos, seq!['R'], ek);
            assert(w[pos] == w.subrange(pos, pos + 1)[0]);
            lemma_dec_enc_str(w, pos + 1, key);
        },
    }
}

/// A `Get` answer decodes from its own encoding wherever it sits in a
/// stream.
pub proof fn lemma_get_response_round_trip(w: Seq<char>, pos: int, r: GetResponseView)
    requires
        0 <= pos,
        pos + enc_get_response(r).len() <= w.len(),
        w.subrange(pos, pos + enc_get_response(r).len() as int) == enc_get_response(r),
    ensures
        dec_get_response(w, pos) == Some((r, pos + enc_get_response(r).len() as int)),
{
    match r {
        GetResponseView::Success(Some(v)) => {
            let ev = enc_str(v);
            assert(enc_get_response(r) =~= seq!['V'] + ev);
            lemma_subrange_split(w, pos, seq!['V'], ev);
            assert(w[pos] == w.subrange(pos, pos + 1)[0]);
            lemma_dec_enc_str(w, pos + 1, v);
        },
        GetResponseView::Success(None) => {
            assert(w[pos] == w.subrange(pos, pos + 1)[0]);
        },
        GetResponseView::Failure(m) => {
            let em = enc_str(m);
            assert(enc_get_response(r) =~= seq!['E'] + em);
            lemma_subrange_split(w, pos, seq!['E'], em);
            assert(w[pos] == w.subrange(pos, pos + 1)[0]);
            lemma_dec_enc_str(w, pos + 1, m);
        },
    }
}

/// A `Set` answer decodes from its own encoding wherever it sits in a
/// stream.
pub proof fn lemma_set_response_round_trip(w: Seq<char>, pos: int, r: SetResponseView)
    requires
        0 <= pos,
        pos + enc_set_response(r).len() <= w.len(),
        w.subrange(pos, pos + enc_set_response(r).len() as int) == enc_set_response(r),
    ensures
        dec_set_response(w, pos) == Some((r, pos + enc_set_response(r).len() as int)),
{
    match r {
        SetResponseView::Success => {
            assert(w[pos] == w.subrange(pos, pos + 1)[0]);
        },
        SetResponseView::Failure(m) => {
            let em = enc_str(m);
            assert(enc_set_response(r) =~= seq!['E'] + em);
            lemma_subrange_split(w, pos, seq!['E'], em);
            assert(w[pos] == w.subrange(pos, pos + 1)[0]);
            lemma_dec_enc_str(w, pos + 1, m);
        },
    }
}

/// A `Remove` answer decodes from its own encoding wherever it sits in a
/// stream.
pub proof fn lemma_remove_response_round_trip(w: Seq<char>, pos: int, r: RemoveResponseView)
    requires
        0 <= pos,
        pos + enc_remove_response(r).len() <= w.len(),
        w.subrange(pos, pos + enc_remove_response(r).len() as int) == enc_remove_response(r),
    ensures
        dec_remove_response(w, pos) == Some((r, pos + enc_remove_response(r).len() as int)),
{
    match r {
        RemoveResponseView::Success => {
            assert(w[pos] == w.subrange(pos, pos + 1)[0]);
        },
        RemoveResponseView::Failure(m) => {
            let em = enc_str(m);
            assert(enc_remove_response(r) =~= seq!['E'] + em);
            lemma_subrange_split(w, pos, seq!['E'], em);
            assert(w[pos] == w.subrange(pos, pos + 1)[0]);
            lemma_dec_enc_str(w, pos + 1, m);
        },
    }
}

} // verus!
