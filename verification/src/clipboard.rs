//! A platform-agnostic clipboard: reads that hand their content out once, an in-process text
//! clipboard, and the checks that turn images into clipboard image data and back.
use vstd::prelude::*;
use vstd::slice::slice_to_vec;

verus! {

/// Adds clipboard support to an app.
pub struct ClipboardPlugin;

/// An error that might happen during a clipboard operation.
#[derive(Debug, Clone)]
pub enum ClipboardError {
    /// Clipboard contents were unavailable or not in the expected format.
    ContentNotAvailable,
    /// No suitable clipboard backend was available.
    ClipboardNotSupported,
    /// Clipboard access is temporarily locked by another process or thread.
    ClipboardOccupied,
    /// The data could not be converted to or from the required format.
    ConversionFailure,
    /// The clipboard content was already taken from the `ClipboardRead`.
    ContentTaken,
    /// An unknown error.
    Unknown {
        /// String describing the error.
        description: String,
    },
}

/// An error as the system clipboard backend reports it.
pub enum BackendError {
    ContentNotAvailable,
    ClipboardNotSupported,
    ClipboardOccupied,
    ConversionFailure,
    Unknown { description: String },
    /// A kind of error that this library does not know.
    Other,
}

impl ClipboardError {
    /// The clipboard error for an error of the system clipboard backend: the same kind, and
    /// for a kind this library does not know, an unknown error saying so.
    pub fn from_backend(value: BackendError) -> (r: ClipboardError)
        ensures
            match value {
                BackendError::ContentNotAvailable => r matches ClipboardError::ContentNotAvailable,
                BackendError::ClipboardNotSupported => r matches ClipboardError::ClipboardNotSupported,
                BackendError::ClipboardOccupied => r matches ClipboardError::ClipboardOccupied,
                BackendError::ConversionFailure => r matches ClipboardError::ConversionFailure,
                BackendError::Unknown { description } => r matches ClipboardError::Unknown { description: d }
                    && d@ == description@,
                BackendError::Other => r matches ClipboardError::Unknown { description: d }
                    && d@ == "Unknown arboard error variant"@,
            },
    {
        match value {
            BackendError::ContentNotAvailable => ClipboardError::ContentNotAvailable,
            BackendError::ClipboardNotSupported => ClipboardError::ClipboardNotSupported,
            BackendError::ClipboardOccupied => ClipboardError::ClipboardOccupied,
            BackendError::ConversionFailure => ClipboardError::ConversionFailure,
            BackendError::Unknown { description } => ClipboardError::Unknown { description },
            BackendError::Other => ClipboardError::Unknown {
                description: "Unknown arboard error variant".to_string(),
            },
        }
    }
}

/// Represents an attempt to read from the clipboard; here the result is available at once.
pub enum ClipboardRead<T> {
    /// The clipboard contents are ready to be accessed.
    Ready(Result<T, ClipboardError>),
}

impl<T> ClipboardRead<T> {
    /// The result of the read, handed out once: afterwards the read holds
    /// [`ClipboardError::ContentTaken`].
    pub fn poll_result(&mut self) -> (r: Option<Result<T, ClipboardError>>)
        ensures
            ({
                let ClipboardRead::Ready(before) = *old(self);
                r == Some(before)
            }),
            *final(self) matches ClipboardRead::Ready(Err(ClipboardError::ContentTaken)),
    {
        let mut taken = ClipboardRead::Ready(Err(ClipboardError::ContentTaken));
        core::mem::swap(self, &mut taken);
        let ClipboardRead::Ready(inner) = taken;
        Some(inner)
    }
}

/// A clipboard that keeps its text in the process.
pub struct Clipboard {
    text: String,
}

impl Clipboard {
    /// The text held.
    pub closed spec fn text(&self) -> Seq<char> {
        self.text@
    }

    /// A clipboard holding the empty text.
    pub fn new() -> (r: Self)
        ensures
            r.text() == Seq::<char>::empty(),
    {
        Clipboard { text: String::new() }
    }

    /// Fetches the text held; the read is ready at once.
    pub fn fetch_text(&mut self) -> (r: ClipboardRead<String>)
        ensures
            final(self).text() == old(self).text(),
            r matches ClipboardRead::Ready(Ok(t)) && t@ == old(self).text(),
    {
        ClipboardRead::Ready(Ok(self.text.clone()))
    }

    /// Places the text onto the clipboard. Any text is accepted.
    pub fn set_text(&mut self, text: &str) -> (r: Result<(), ClipboardError>)
        ensures
            r is Ok,
            final(self).text() == text@,
    {
        self.text = text.to_owned();
        Ok(())
    }
}

impl Default for Clipboard {
    fn default() -> (r: Self)
        ensures
            r.text() == Seq::<char>::empty(),
    {
        Clipboard::new()
    }
}

/// A read gives back what a write wrote: after `set_text(t)`, `fetch_text` is ready with
/// `t`, and polling that read hands `t` out once and then reports the content as taken.
pub proof fn lemma_read_gives_back_write(
    written: Seq<char>,
    after_write: Clipboard,
    read: ClipboardRead<String>,
)
    requires
        after_write.text() == written,
        read matches ClipboardRead::Ready(Ok(t)) && t@ == after_write.text(),
    ensures
        read matches ClipboardRead::Ready(Ok(t)) && t@ == written,
{
}

/// A read hands its content out once: polling a read that has been polled before yields
/// [`ClipboardError::ContentTaken`], and the read stays so.
pub proof fn lemma_poll_hands_out_once<T>(
    after_first: ClipboardRead<T>,
    second: Option<Result<T, ClipboardError>>,
    after_second: ClipboardRead<T>,
)
    requires
        after_first matches ClipboardRead::Ready(Err(ClipboardError::ContentTaken)),
        ({
            let ClipboardRead::Ready(before) = after_first;
            second == Some(before)
        }),
        after_second matches ClipboardRead::Ready(Err(ClipboardError::ContentTaken)),
    ensures
        second matches Some(Err(ClipboardError::ContentTaken)),
        after_second == after_first,
{
}

/// An image as the clipboard sees it: its size in pixels and, where initialized, its
/// pixel data in packed RGBA8 row-major order.
pub struct Image {
    pub width: u32,
    pub height: u32,
    pub data: Option<Vec<u8>>,
}

/// Image data in the clipboard's own format: packed RGBA8 row-major pixels.
pub struct ImageData<'a> {
    pub width: usize,
    pub height: usize,
    pub bytes: &'a [u8],
}

/// Turns clipboard image data into an image. Fails with
/// [`ClipboardError::ConversionFailure`] exactly where a side does not fit in a `u32`.
pub fn try_image_from_imagedata(image: ImageData) -> (r: Result<Image, ClipboardError>)
    ensures
        (image.width > u32::MAX || image.height > u32::MAX) <==> r matches Err(
            ClipboardError::ConversionFailure,
        ),
        r is Ok ==> ({
            let img = r->Ok_0;
            &&& img.width == image.width
            &&& img.height == image.height
            &&& img.data matches Some(d) && d@ == image.bytes@
        }),
{
    if image.width > u32::MAX as usize {
        return Err(ClipboardError::ConversionFailure);
    }
    if image.height > u32::MAX as usize {
        return Err(ClipboardError::ConversionFailure);
    }
    Ok(
        Image {
            width: image.width as u32,
            height: image.height as u32,
            data: Some(slice_to_vec(image.bytes)),
        },
    )
}

/// Turns an image into clipboard image data, borrowing its pixels. Fails with
/// [`ClipboardError::ConversionFailure`] exactly where the image has no pixel data or the
/// data does not hold four bytes for each pixel.
pub fn try_imagedata_from_image(image: &Image) -> (r: Result<ImageData<'_>, ClipboardError>)
    ensures
        r is Ok <==> (image.data matches Some(d) && d@.len() == image.width as int
            * image.height as int * 4),
        r is Err ==> r matches Err(ClipboardError::ConversionFailure),
        r is Ok ==> ({
            let d = r->Ok_0;
            &&& d.width == image.width
            &&& d.height == image.height
            &&& image.data matches Some(v) && d.bytes@ == v@
        }),
{
    let width = image.width as usize;
    let height = image.height as usize;
    let data = match &image.data {
        Some(d) => d,
        None => {
            return Err(ClipboardError::ConversionFailure);
        },
    };
    let data_len = data.len();
    let pixels = match width.checked_mul(height) {
        Some(p) => p,
        None => {
            proof {
                assert(data@.len() != width * height * 4) by (nonlinear_arith)
                    requires
                        width * height > usize::MAX,
                        data@.len() == data_len,
                ;
            }
            return Err(ClipboardError::ConversionFailure);
        },
    };
    let expected = match pixels.checked_mul(4) {
        Some(e) => e,
        None => {
            assert(data@.len() != width * height * 4);
            return Err(ClipboardError::ConversionFailure);
        },
    };
    if data.len() != expected {
        return Err(ClipboardError::ConversionFailure);
    }
    Ok(ImageData { width, height, bytes: data.as_slice() })
}

} // verus!
