//! The terminal QR-code banner for the server's address, computed by the
//! qrcode crate behind a trusted wrapper.
use vstd::prelude::*;
use vstd::string::StringExecFns;

verus! {

/// The terminal rendering of the QR code for `data`, with this library's
/// colors: a pure function of the encoded data.
pub uninterp spec fn qr_terminal_of(data: Seq<char>) -> Seq<char>;

/// Whether the encoder accepts `data`: acceptance depends on the encoded
/// bytes alone (it fails when the data fits no QR code version).
pub uninterp spec fn qr_encodable(data: Seq<char>) -> bool;

/// Relies on `qrcode::QrCode::new` and its string renderer (`Renderer::build`
/// with `&str` pixels): construction fails deterministically, exactly when the
/// data fits no QR code version, and the rendering is deterministic in the
/// encoded bytes, with fixed colors and the default error-correction level.
#[verifier::external_body]
fn qr_render(data: &str) -> (r: Option<String>)
    ensures
        match r {
            Some(s) => s@ == qr_terminal_of(data@) && qr_encodable(data@),
            None => !qr_encodable(data@),
        },
{
    match qrcode::QrCode::new(data.as_bytes()) {
        Ok(code) => Some(
            code.render()
                .light_color("\u{001b}[1;34;37;47m  \u{001b}[0m")
                .dark_color("\u{001b}[1;34;37;40m  \u{001b}[0m")
                .build(),
        ),
        Err(_) => None,
    }
}

/// The banner a server prints at startup: the QR code of `http://<address>`,
/// or `None` exactly when that text is too long to encode.
pub fn render_server_qr_code(address: &str) -> (r: Option<String>)
    ensures
        match r {
            Some(s) => s@ == qr_terminal_of("http://"@ + address@) && qr_encodable(
                "http://"@ + address@,
            ),
            None => !qr_encodable("http://"@ + address@),
        },
{
    let mut url = String::new();
    url.append("http://");
    url.append(address);
    proof {
        assert(url@ =~= "http://"@ + address@);
    }
    qr_render(url.as_str())
}

} // verus!
