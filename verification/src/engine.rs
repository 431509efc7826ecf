//! The engine endpoints this crate judges itself: the ping handshake,
//! and the status check every data endpoint shares. The JSON bodies of
//! the data endpoints are decoded outside this crate.

use vstd::prelude::*;
use vstd::string::*;

use crate::errors::Error;
use crate::http::Response;
use crate::httpstream::HttpStream;
use crate::network::get;
use crate::types::Client;

verus! {

/// Judge the engine's reply to a ping: status 200 with body `OK`.
pub fn check_ping_response(response: &Response) -> (r: Result<(), Error>)
    ensures
        r is Ok <==> response.status_code == 200 && response.body@ == "OK"@,
        response.status_code != 200 ==> (r matches Err(e) && e matches Error::EngineError(m)
            && m@ == "non-200 response from engine"@),
        response.status_code == 200 && response.body@ != "OK"@ ==> (r matches Err(e)
            && e matches Error::EngineError(m) && m@ == "Malformed response from engine"@),
{
    if response.status_code != 200 {
        return Err(Error::EngineError(String::from_str("non-200 response from engine")));
    }
    if !(response.body == String::from_str("OK")) {
        return Err(Error::EngineError(String::from_str("Malformed response from engine")));
    }
    Ok(())
}

/// Judge a data endpoint's reply: any 200 response hands its body on for
/// decoding, every other status is refused.
pub fn check_ok_response(response: Response) -> (r: Result<String, Error>)
    ensures
        r is Ok <==> response.status_code == 200,
        r matches Ok(b) ==> b@ == response.body@,
        response.status_code != 200 ==> (r matches Err(e) && e matches Error::EngineError(m)
            && m@ == "non-200 response from server"@),
{
    if response.status_code != 200 {
        return Err(Error::EngineError(String::from_str("non-200 response from server")));
    }
    Ok(response.body)
}

/// Ping the engine over the configured backend and require its `OK`.
///
/// A configuration whose selected backend misses its fields is refused
/// before any connection is attempted, and only such a configuration
/// is, as `get` promises; and the only engine judgments this call adds
/// are the two the ping check gives.
pub fn ping<U: HttpStream, T: HttpStream, S: HttpStream>(client: Client) -> (r: Result<(), Error>)
    ensures
        !client.config_ok() ==> (r matches Err(e) && e matches Error::ConfigurationError(_)),
        (r matches Err(e) && e matches Error::ConfigurationError(_)) ==> !client.config_ok(),
        r matches Err(e) ==> (e matches Error::EngineError(m) ==> (m@
            == "non-200 response from engine"@ || m@ == "Malformed response from engine"@)),
{
    match get::<U, T, S>(client, "/_ping") {
        Ok(response) => check_ping_response(&response),
        Err(e) => Err(e),
    }
}

} // verus!
