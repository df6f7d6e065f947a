use bevy_ui::clipboard::{
    try_image_from_imagedata, try_imagedata_from_image, BackendError, Clipboard, ClipboardError,
    ClipboardRead, Image, ImageData,
};

#[test]
fn a_read_gives_back_the_written_text() {
    let mut clipboard = Clipboard::default();
    assert!(clipboard.set_text("hello").is_ok());
    let mut read = clipboard.fetch_text();
    match read.poll_result() {
        Some(Ok(text)) => assert_eq!(text, "hello"),
        _ => panic!("the text should be ready"),
    }
    // the content is handed out once
    assert!(matches!(read.poll_result(), Some(Err(ClipboardError::ContentTaken))));
    assert!(matches!(read.poll_result(), Some(Err(ClipboardError::ContentTaken))));
    // the clipboard itself still holds the text
    assert!(matches!(clipboard.fetch_text().poll_result(), Some(Ok(t)) if t == "hello"));
}

#[test]
fn a_new_clipboard_holds_the_empty_text() {
    let mut clipboard = Clipboard::new();
    assert!(matches!(clipboard.fetch_text().poll_result(), Some(Ok(t)) if t.is_empty()));
}

#[test]
fn a_ready_error_is_handed_out_once() {
    let mut read: ClipboardRead<String> = ClipboardRead::Ready(Err(ClipboardError::ClipboardOccupied));
    assert!(matches!(read.poll_result(), Some(Err(ClipboardError::ClipboardOccupied))));
    assert!(matches!(read.poll_result(), Some(Err(ClipboardError::ContentTaken))));
}

#[test]
fn backend_errors_map_to_clipboard_errors() {
    assert!(matches!(ClipboardError::from_backend(BackendError::ContentNotAvailable), ClipboardError::ContentNotAvailable));
    assert!(matches!(ClipboardError::from_backend(BackendError::ClipboardNotSupported), ClipboardError::ClipboardNotSupported));
    assert!(matches!(ClipboardError::from_backend(BackendError::ClipboardOccupied), ClipboardError::ClipboardOccupied));
    assert!(matches!(ClipboardError::from_backend(BackendError::ConversionFailure), ClipboardError::ConversionFailure));
    match ClipboardError::from_backend(BackendError::Unknown { description: "boom".to_string() }) {
        ClipboardError::Unknown { description } => assert_eq!(description, "boom"),
        _ => panic!("an unknown error should stay unknown"),
    }
    match ClipboardError::from_backend(BackendError::Other) {
        ClipboardError::Unknown { description } => assert_eq!(description, "Unknown arboard error variant"),
        _ => panic!("an unlisted error should be unknown"),
    }
}

#[test]
fn image_data_round_trip() {
    let bytes = vec![1u8, 2, 3, 4, 5, 6, 7, 8];
    let image = try_image_from_imagedata(ImageData { width: 2, height: 1, bytes: &bytes }).unwrap();
    assert_eq!((image.width, image.height), (2, 1));
    assert_eq!(image.data.as_deref(), Some(&bytes[..]));
    let data = try_imagedata_from_image(&image).unwrap();
    assert_eq!((data.width, data.height), (2, 1));
    assert_eq!(data.bytes, &bytes[..]);
}

#[test]
fn oversized_image_data_is_refused() {
    let bytes = vec![0u8; 4];
    let wide = ImageData { width: u32::MAX as usize + 1, height: 1, bytes: &bytes };
    assert!(matches!(try_image_from_imagedata(wide), Err(ClipboardError::ConversionFailure)));
    let tall = ImageData { width: 1, height: u32::MAX as usize + 1, bytes: &bytes };
    assert!(matches!(try_image_from_imagedata(tall), Err(ClipboardError::ConversionFailure)));
}

#[test]
fn images_without_matching_pixels_are_refused() {
    let empty = Image { width: 1, height: 1, data: None };
    assert!(matches!(try_imagedata_from_image(&empty), Err(ClipboardError::ConversionFailure)));
    let short = Image { width: 2, height: 2, data: Some(vec![0; 15]) };
    assert!(matches!(try_imagedata_from_image(&short), Err(ClipboardError::ConversionFailure)));
    let exact = Image { width: 2, height: 2, data: Some(vec![0; 16]) };
    assert!(try_imagedata_from_image(&exact).is_ok());
}
