//! The phone controller's address, shown in the app as a QR code.
use vstd::prelude::*;

verus! {

/// The SVG image of the QR code of `data`, drawn at least `width` by `height` with the
/// colors `dark` and `light`; where no QR code holds `data`, the message of the error.
pub uninterp spec fn qr_svg_image(data: Seq<u8>, width: u32, height: u32, dark: Seq<char>, light: Seq<char>) -> Result<Seq<char>, Seq<char>>;

/// Calls `QrCode::new` on `data` and renders the code with `render::<svg::Color>()`,
/// `min_dimensions(width, height)`, `dark_color` and `light_color`, then `build`; where
/// `QrCode::new` fails, its `QrError` is turned into its message by `to_string`.  Both
/// the image and the message are functions of the arguments alone: the result is
/// `qr_svg_image` of them.  `min_dimensions` adds the sizes to the module count in `u32`,
/// so the sizes are bounded.
#[verifier::external_body]
fn qr_svg(data: &[u8], width: u32, height: u32, dark: &str, light: &str) -> (r: Result<String, String>)
    requires
        width <= 4096,
        height <= 4096,
    ensures
        match r {
            Ok(s) => qr_svg_image(data@, width, height, dark@, light@) == Ok::<Seq<char>, Seq<char>>(s@),
            Err(e) => qr_svg_image(data@, width, height, dark@, light@) == Err::<Seq<char>, Seq<char>>(e@),
        },
{
    let code = match qrcode::QrCode::new(data) {
        Ok(code) => code,
        Err(e) => return Err(e.to_string()),
    };
    Ok(code.render::<qrcode::render::svg::Color>()
        .min_dimensions(width, height)
        .dark_color(qrcode::render::svg::Color(dark))
        .light_color(qrcode::render::svg::Color(light))
        .build())
}

/// The phone controller as the app shows it: its address and its QR code.
pub struct RemoteControllerPayload {
    pub url: String,
    pub qr_svg: String,
}

/// The size and colors of the QR code.
pub const QR_MIN_SIZE: u32 = 240;
pub const QR_DARK: &'static str = "#111315";
pub const QR_LIGHT: &'static str = "#f7f4ee";

/// The phone controller's address and its QR code, where the controller runs; an error
/// where it does not, or where the address does not fit a QR code.
pub fn remote_controller_payload(url: Option<String>) -> (r: Result<RemoteControllerPayload, String>)
    ensures
        match url {
            None => r matches Err(e) && e@ == "Phone controller is unavailable"@,
            Some(u) => match qr_svg_image(vstd::utf8::encode_utf8(u@), QR_MIN_SIZE, QR_MIN_SIZE, QR_DARK@, QR_LIGHT@) {
                Ok(svg) => r matches Ok(p) && p.url@ == u@ && p.qr_svg@ == svg,
                Err(message) => r matches Err(e) && e@ == message,
            },
        },
{
    let url = match url {
        Some(u) => u,
        None => {
            return Err("Phone controller is unavailable".to_owned());
        },
    };
    match qr_svg(url.as_str().as_bytes(), QR_MIN_SIZE, QR_MIN_SIZE, QR_DARK, QR_LIGHT) {
        Ok(svg) => Ok(RemoteControllerPayload { url, qr_svg: svg }),
        Err(e) => Err(e),
    }
}

} // verus!
