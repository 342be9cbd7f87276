use llmcli::media::{
    audio_mime, detect_audio_mime, detect_image_mime, fits_base64, is_image, large_file_warning,
    load_audio, load_image, load_text_file, MediaError, LARGE_FILE,
};

#[test]
fn images_are_known_by_their_first_bytes() {
    let images: [&[u8]; 18] = [
        b"\xff\xd8\xff\xe0",
        b"\x89PNG\r\n\x1a\n....",
        b"GIF89a",
        b"RIFF\x01\x02\x03\x04WEBPVP8 ",
        b"BM6",
        b"II*\0",
        b"MM\0*",
        b"\0\0\0\x0cftypavif",
        b"\0\0\0\x1cftypavis",
        b"\0\0\0\x18ftypheic",
        b"\0\0\0\x18ftypmif1heic",
        b"\0\0\x01\0\x01\0",
        b"<svg xmlns=\"http://www.w3.org/2000/svg\"/>",
        b"<?xml version=\"1.0\"?>\n<svg/>",
        b"\n<?xml version='1.0'?><!-- <html> --><svg\t/>",
        b"<!DOCTYPE svg PUBLIC \"-//W3C//DTD SVG 1.1//EN\" \"a>b\"><svg>",
        b"<!DOCTYPE svg [ <!ENTITY a \"]>\"> ]>\n<?style x?>\n<svg width='1'>",
        b"<svg",
    ];
    for b in images {
        assert!(detect_image_mime(b).is_some(), "{:?}", b);
    }
    let others: [&[u8]; 15] =
        [b"\0\0\0\x20ftypM4A ", b"<?xml version=\"1.0\"?><html/>", b"<html><svg/>",
         b"<?xml version=\"1.0\"?>\n<html><body><svg/></body></html>", b"<!DOCTYPE html><html><svg/>",
         b"<!-- <svg/>", b"<?xml <svg/>", b"<svgs/>", b"svg", b"", b"\xff\xd8", b"\x89PNG\r\n\x1a", b"RIFF\x01\x02\x03\x04WAVE", b"B", b"MM*\0"];
    for b in others {
        assert!(detect_image_mime(b).is_none(), "{:?}", b);
    }
}

#[test]
fn audio_is_known_by_its_first_bytes() {
    assert_eq!(detect_audio_mime(b"\xff\xfb\x90"), Some("audio/mpeg"));
    assert_eq!(detect_audio_mime(b"\xff\xf3"), Some("audio/mpeg"));
    assert_eq!(detect_audio_mime(b"\xff\xf2"), Some("audio/mpeg"));
    assert_eq!(detect_audio_mime(b"ID3"), Some("audio/mpeg"));
    assert_eq!(detect_audio_mime(b"RIFF....WAVEfmt "), Some("audio/wav"));
    assert_eq!(detect_audio_mime(b"OggS"), Some("audio/ogg"));
    assert_eq!(detect_audio_mime(b"fLaC"), Some("audio/flac"));
    assert_eq!(detect_audio_mime(b"\0\0\0\x20ftypM4A "), Some("audio/mp4"));
    assert_eq!(detect_audio_mime(b"\0\0\0\x20ftyp"), Some("audio/mp4"));
    assert_eq!(detect_audio_mime(b"\0\0\0\x20fty"), None);
    assert_eq!(detect_audio_mime(b"\xff\xf1\x50"), Some("audio/aac"));
    assert_eq!(detect_audio_mime(b"\xff\xf9\x50"), Some("audio/aac"));
    assert_eq!(detect_audio_mime(b"ADIF"), Some("audio/aac"));
    assert_eq!(detect_audio_mime(b"FORM\0\0\0\0AIFFCOMM"), Some("audio/aiff"));
    assert_eq!(detect_audio_mime(b"FORM\0\0\0\0AIFCCOMM"), Some("audio/aiff"));
    assert_eq!(detect_audio_mime(b"FORM\0\0\0\0ILBM"), None);
    assert_eq!(
        detect_audio_mime(b"\x30\x26\xb2\x75\x8e\x66\xcf\x11"),
        Some("audio/x-ms-wma")
    );
    assert_eq!(detect_audio_mime(b"#!AMR\n"), Some("audio/amr"));
    assert_eq!(detect_audio_mime(b"#!AMR-WB\n"), Some("audio/amr"));
    assert_eq!(detect_audio_mime(b"#!AM"), None);
    assert_eq!(detect_audio_mime(b"MThd\0\0\0\x06"), Some("audio/midi"));
    assert_eq!(detect_audio_mime(b"\xff\xfa"), None);
    assert_eq!(detect_audio_mime(b""), None);
}

#[test]
fn every_image_extension_is_known() {
    for e in [
        "jpg", "jpeg", "jfif", "jpe", "png", "gif", "webp", "bmp", "dib", "tiff", "tif", "avif",
        "heic", "heif", "ico", "cur", "svg", "svgz",
    ] {
        assert!(is_image(e, b"no magic"));
    }
    assert!(!is_image("txt", b"no magic"));
    assert!(!is_image("", b""));
    assert!(is_image("txt", b"GIF8"));
}

#[test]
fn every_audio_extension_has_its_type() {
    for (e, mime) in [
        ("mp3", "audio/mpeg"), ("mp2", "audio/mpeg"), ("wav", "audio/wav"), ("wave", "audio/wav"),
        ("ogg", "audio/ogg"), ("oga", "audio/ogg"), ("flac", "audio/flac"), ("m4a", "audio/mp4"),
        ("mp4", "audio/mp4"), ("m4b", "audio/mp4"), ("aac", "audio/aac"), ("opus", "audio/opus"),
        ("aiff", "audio/aiff"), ("aif", "audio/aiff"), ("aifc", "audio/aiff"),
        ("wma", "audio/x-ms-wma"), ("amr", "audio/amr"), ("weba", "audio/webm"),
        ("mid", "audio/midi"), ("midi", "audio/midi"),
    ] {
        assert_eq!(audio_mime(e, b"OggS"), Some(mime));
    }
    assert_eq!(audio_mime("bin", b"OggS"), Some("audio/ogg"));
    assert_eq!(audio_mime("bin", b"nothing"), None);
}

#[test]
fn an_image_is_sent_in_base64() {
    let image = load_image("a/photo.PNG", Some(b"hello world~")).ok().unwrap();
    assert_eq!(image.base64, "aGVsbG8gd29ybGR+");
    let image = load_image("photo", Some(b"BM\xff")).ok().unwrap();
    assert_eq!(image.base64, "Qk3/");
    let image = load_image("photo", Some(b"\0\0\0\x0cftypavif")).ok().unwrap();
    assert_eq!(image.base64, "AAAADGZ0eXBhdmlm");
    let image = load_image("x.jpg", Some(b"\xfb\xff")).ok().unwrap();
    assert_eq!(image.base64, "+/8=");
    let image = load_image("x.jpg", Some(b"a")).ok().unwrap();
    assert_eq!(image.base64, "YQ==");
    let image = load_image("x.jpg", Some(b"")).ok().unwrap();
    assert_eq!(image.base64, "");
}

#[test]
fn an_image_that_is_none_is_refused() {
    assert_eq!(load_image("a.txt", Some(b"text")).err(), Some(MediaError::ImageFormat));
    assert_eq!(load_image("a.png", None).err(), Some(MediaError::ReadImage));
    assert_eq!(load_image(".png", Some(b"text")).err(), Some(MediaError::ImageFormat));
}

#[test]
fn audio_is_sent_with_its_type() {
    let audio = load_audio("Song.Mp3", Some(b"ab")).ok().unwrap();
    assert_eq!((audio.base64.as_str(), audio.mime), ("YWI=", "audio/mpeg"));
    let audio = load_audio("song", Some(b"fLaC")).ok().unwrap();
    assert_eq!((audio.base64.as_str(), audio.mime), ("ZkxhQw==", "audio/flac"));
    assert_eq!(load_audio("song.txt", Some(b"la")).err(), Some(MediaError::AudioFormat));
    assert_eq!(load_audio("song.mp3", None).err(), Some(MediaError::ReadAudio));
}

#[test]
fn an_extension_in_other_letters_is_lowered() {
    // The Kelvin sign is a `k` in lower case.
    assert!(load_image("a.\u{212A}", Some(b"")).is_err());
    assert!(load_image("a.SVGZ", Some(b"")).is_ok());
}

#[test]
fn a_text_file_is_taken_as_it_is() {
    assert_eq!(load_text_file(Some(2), Some("ab".to_string())), Ok("ab".to_string()));
    assert_eq!(load_text_file(None, Some("ab".to_string())), Err(MediaError::StatFile));
    assert_eq!(load_text_file(None, None), Err(MediaError::StatFile));
    assert_eq!(load_text_file(Some(2), None), Err(MediaError::ReadFile));
}

#[test]
fn large_files_and_limits() {
    assert_eq!(LARGE_FILE, 200 * 1024);
    assert_eq!(large_file_warning("a b.txt", 200 * 1024, "200.0"), None);
    assert_eq!(
        large_file_warning("a b.txt", 200 * 1024 + 1, "200.0").as_deref(),
        Some(
            "\x1b[33m[warn] File 'a b.txt' is 200.0 KB — may exceed context window.\x1b[0m\n"
        )
    );
    assert!(fits_base64(0));
    assert!(fits_base64(1_000_000));
    assert!(!fits_base64(usize::MAX));
    assert!(fits_base64(isize::MAX as usize / 4 * 3));
    assert!(!fits_base64(isize::MAX as usize / 4 * 3 + 1));
}

#[test]
fn errors_are_told_with_the_path() {
    assert_eq!(MediaError::ReadImage.message("p q"), "Cannot read image: p q");
    assert_eq!(MediaError::ReadAudio.message("p"), "Cannot read audio: p");
    assert_eq!(MediaError::StatFile.message("p"), "Cannot stat file: p");
    assert_eq!(MediaError::ReadFile.message("p"), "Cannot read file: p");
    assert_eq!(
        MediaError::ImageFormat.message("p"),
        "Unsupported or unrecognised image format: 'p'\nSupported: jpg/jpeg, png, gif, webp, bmp, \
         tiff, avif, heic, ico, svg"
    );
    assert_eq!(
        MediaError::AudioFormat.message("p"),
        "Unsupported or unrecognised audio format: 'p'\nSupported: mp3, wav, ogg, flac, m4a, aac, \
         opus, aiff, wma, amr, weba, midi"
    );
}
