//! What the oracle decides before a response is fetched and after it has
//! arrived; the request itself is made elsewhere.

use vstd::prelude::*;
use vstd::string::StringSliceAdditionalSpecFns;
use vstd::utf8::{decode_utf8, decode_utf8_encode_utf8, valid_utf8};
use crate::error::OracleError;
use crate::json::{numbers_fit, parse_data, parsed_json, selected, MAX_TEXT_LEN};
use crate::oracle::{Oracle, OracleView};
use crate::value::PrimitiveOracleType;

verus! {

/// The status a response must report.
pub const STATUS_OK: u16 = 200;

/// Trusted: `core::str::from_utf8`, which hands the bytes back as text
/// where they are valid UTF-8 and refuses them otherwise.
#[verifier::external_body]
pub(crate) fn text_from_utf8(bytes: &[u8]) -> (r: Option<&str>)
    ensures
        match r {
            Some(text) => valid_utf8(bytes@) && text@ == decode_utf8(bytes@),
            None => !valid_utf8(bytes@),
        },
{
    match core::str::from_utf8(bytes) {
        Ok(text) => Some(text),
        Err(_) => None,
    }
}

/// The text to fetch the values of `key` from: there is none where no place
/// is known, or where the place noted is no UTF-8.
pub open spec fn url_text(view: OracleView, key: Seq<u8>) -> Result<Seq<char>, OracleError> {
    if !view.urls.contains_key(key) {
        Err(OracleError::NoUrl)
    } else if !valid_utf8(view.urls[key]) {
        Err(OracleError::InvalidUrl)
    } else {
        Ok(decode_utf8(view.urls[key]))
    }
}

/// The number that a body holds for a member name, in the representation
/// `kind`: the body is read as JSON where its numbers fit and it is not
/// longer than the parser takes.
pub open spec fn body_value(
    body: Seq<u8>,
    key_str: Seq<u8>,
    kind: crate::value::NumberType,
) -> Option<PrimitiveOracleType> {
    if body.len() <= MAX_TEXT_LEN && numbers_fit(body) {
        selected(parsed_json(decode_utf8(body)), decode_utf8(key_str), kind)
    } else {
        None
    }
}

/// What a response with status `code` and body `body` gives for `key`.
///
/// In this order: a status other than [`STATUS_OK`] is
/// [`OracleError::UnexpectedStatus`]; a key without settings is
/// [`OracleError::UnknownKey`]; a body that is no UTF-8 is
/// [`OracleError::InvalidBody`]; a member name that is no UTF-8 is
/// [`OracleError::InvalidJsonKey`]; and a body without a value for the
/// member is [`OracleError::ExtractionFailed`].
pub open spec fn response_value(view: OracleView, key: Seq<u8>, code: u16, body: Seq<u8>) -> Result<
    PrimitiveOracleType,
    OracleError,
> {
    if code != STATUS_OK {
        Err(OracleError::UnexpectedStatus)
    } else if !view.infos.contains_key(key) {
        Err(OracleError::UnknownKey)
    } else if !valid_utf8(body) {
        Err(OracleError::InvalidBody)
    } else if !valid_utf8(view.infos[key].key_str@) {
        Err(OracleError::InvalidJsonKey)
    } else {
        match body_value(body, view.infos[key].key_str@, view.infos[key].number_type) {
            Some(value) => Ok(value),
            None => Err(OracleError::ExtractionFailed),
        }
    }
}

impl Oracle {
    /// The address to request the values of `storage_key` from.
    pub fn fetch_url(&self, storage_key: &[u8]) -> (r: Result<&str, OracleError>)
        requires
            self.wf(),
        ensures
            match r {
                Ok(text) => url_text(self@, storage_key@) == Ok::<Seq<char>, OracleError>(text@),
                Err(e) => url_text(self@, storage_key@) == Err::<Seq<char>, OracleError>(e),
            },
    {
        let url: &Vec<u8> = match self.url(storage_key) {
            Some(u) => u,
            None => {
                return Err(OracleError::NoUrl);
            },
        };
        match text_from_utf8(url.as_slice()) {
            Some(text) => Ok(text),
            None => Err(OracleError::InvalidUrl),
        }
    }

    /// Reads the value for `storage_key` out of a response with the status
    /// `code` and the body `body`.
    pub fn fetch_data(&self, storage_key: &[u8], code: u16, body: &[u8]) -> (r: Result<
        PrimitiveOracleType,
        OracleError,
    >)
        requires
            self.wf(),
        ensures
            r == response_value(self@, storage_key@, code, body@),
    {
        if code != STATUS_OK {
            return Err(OracleError::UnexpectedStatus);
        }
        let info = match self.infos(storage_key) {
            Some(info) => info,
            None => {
                return Err(OracleError::UnknownKey);
            },
        };
        let body_str: &str = match text_from_utf8(body) {
            Some(text) => text,
            None => {
                return Err(OracleError::InvalidBody);
            },
        };
        let key_str: &str = match text_from_utf8(info.key_str()) {
            Some(text) => text,
            None => {
                return Err(OracleError::InvalidJsonKey);
            },
        };
        proof {
            decode_utf8_encode_utf8(body@);
            assert(body_str.spec_bytes() == body@);
        }
        match parse_data(key_str, info.number_type(), body_str) {
            Some(data) => Ok(data),
            None => Err(OracleError::ExtractionFailed),
        }
    }
}

} // verus!
