//! The client's side of the protocol: turning decoded response frames
//! into results.
//!
//! Connecting, sending the encoded request (`common::encode_request`) and
//! reading the response frame happen outside the library; these functions
//! carry the decisions.  A failure reported by the server surfaces as
//! `StringError` with the server's message.

use vstd::prelude::*;

use crate::common::{
    GetResponse, GetResponseView, RemoveResponse, RemoveResponseView, SetResponse,
    SetResponseView,
};
use crate::error::KvsError;

verus! {

/// The client-side result of a `Get` answer.
pub fn get_outcome(resp: GetResponse) -> (r: Result<Option<String>, KvsError>)
    ensures
        match resp@ {
            GetResponseView::Success(v) => r matches Ok(o) && match v {
                Some(vs) => o matches Some(s) && s@ == vs,
                None => o is None,
            },
            GetResponseView::Failure(m) => r matches Err(e) && e matches KvsError::StringError(s)
                && s@ == m,
        },
{
    match resp {
        GetResponse::Success(v) => Ok(v),
        GetResponse::Failure(m) => Err(KvsError::StringError(m)),
    }
}

/// The client-side result of a `Set` answer.
pub fn set_outcome(resp: SetResponse) -> (r: Result<(), KvsError>)
    ensures
        match resp@ {
            SetResponseView::Success => r is Ok,
            SetResponseView::Failure(m) => r matches Err(e) && e matches KvsError::StringError(s)
                && s@ == m,
        },
{
    match resp {
        SetResponse::Success => Ok(()),
        SetResponse::Failure(m) => Err(KvsError::StringError(m)),
    }
}

/// The client-side result of a `Remove` answer.
pub fn remove_outcome(resp: RemoveResponse) -> (r: Result<(), KvsError>)
    ensures
        match resp@ {
            RemoveResponseView::Success => r is Ok,
            RemoveResponseView::Failure(m) => r matches Err(e) && e matches KvsError::StringError(
                s,
            ) && s@ == m,
        },
{
    match resp {
        RemoveResponse::Success => Ok(()),
        RemoveResponse::Failure(m) => Err(KvsError::StringError(m)),
    }
}

} // verus!
