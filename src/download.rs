//! Messages of the simulated downloads.
use vstd::prelude::*;
use vstd::string::*;

verus! {

/// The message that reports a finished download of `url`.
pub fn completion_message(url: &str) -> (r: String)
    ensures
        r@ == url@ + " + 下载完成"@,
{
    let mut r = String::from_str(url);
    r.append(" + 下载完成");
    r
}

} // verus!
