//! The server's request handling: one decoded request in, one encoded
//! response frame out.
//!
//! The surrounding accept loop, sockets and worker dispatch live outside
//! the library; they decode each request frame, call `serve_request`, and
//! write the returned frame back to the connection.

use vstd::prelude::*;

use crate::common::{
    enc_get_response, enc_remove_response, enc_set_response, encode_get_response,
    encode_remove_response, encode_set_response, GetResponse, GetResponseView, RemoveResponse,
    RemoveResponseView, Request, RequestView, SetResponse, SetResponseView,
};
use crate::engine::KvsEngine;

verus! {

/// A server around a storage engine.
pub struct KvsServer<E: KvsEngine> {
    engine: E,
}

impl<E: KvsEngine> KvsServer<E> {
    /// The visible mapping of the wrapped engine.
    pub closed spec fn engine_kv(&self) -> Map<Seq<char>, Seq<char>> {
        self.engine.kv()
    }

    /// The invariant of the wrapped engine.
    pub closed spec fn inv(&self) -> bool {
        self.engine.inv()
    }

    /// Wraps an engine for serving.
    pub fn new(engine: E) -> (s: Self)
        ensures
            s.inv() == engine.inv(),
            s.engine_kv() == engine.kv(),
    {
        KvsServer { engine }
    }

    /// Handles one request: runs the engine operation and returns the
    /// encoded response frame to send back.  Engine failures become
    /// failure responses carrying the error's message, never a dropped
    /// connection.
    pub fn serve_request(&mut self, req: Request) -> (out: String)
        requires
            old(self).inv(),
        ensures
            final(self).inv(),
            match req@ {
                RequestView::Get { key } => {
                    &&& final(self).engine_kv() == old(self).engine_kv()
                    &&& (out@ == enc_get_response(
                        GetResponseView::Success(
                            if old(self).engine_kv().contains_key(key) {
                                Some(old(self).engine_kv()[key])
                            } else {
                                None
                            },
                        ),
                    ) || (exists|m: Seq<char>|
                        out@ == enc_get_response(GetResponseView::Failure(m))))
                },
                RequestView::Put { key, value } => {
                    ||| {
                        &&& final(self).engine_kv() == old(self).engine_kv().insert(key, value)
                        &&& out@ == enc_set_response(SetResponseView::Success)
                    }
                    ||| {
                        &&& final(self).engine_kv() == old(self).engine_kv()
                        &&& (exists|m: Seq<char>|
                            out@ == enc_set_response(SetResponseView::Failure(m)))
                    }
                },
                RequestView::Remove { key } => {
                    ||| {
                        &&& old(self).engine_kv().contains_key(key)
                        &&& final(self).engine_kv() == old(self).engine_kv().remove(key)
                        &&& out@ == enc_remove_response(RemoveResponseView::Success)
                    }
                    ||| {
                        &&& final(self).engine_kv() == old(self).engine_kv()
                        &&& (exists|m: Seq<char>|
                            out@ == enc_remove_response(RemoveResponseView::Failure(m)))
                    }
                },
            },
    {
        match req {
            Request::Get { key } => {
                let resp = match self.engine.get(key) {
                    Ok(v) => GetResponse::Success(v),
                    Err(e) => GetResponse::Failure(e.message()),
                };
                encode_get_response(&resp)
            },
            Request::Put { key, value } => {
                let resp = match self.engine.set(key, value) {
                    Ok(_u) => SetResponse::Success,
                    Err(e) => SetResponse::Failure(e.message()),
                };
                encode_set_response(&resp)
            },
            Request::Remove { key } => {
                let resp = match self.engine.remove(key) {
                    Ok(_u) => RemoveResponse::Success,
                    Err(e) => RemoveResponse::Failure(e.message()),
                };
                encode_remove_response(&resp)
            },
        }
    }
}

} // verus!
