use dradu::fs::AssetDirHandler;
use dradu::utils::{
    directory_traversal, get_placeholder_image, is_compatible_ver, parse_color,
    placeholder_pixels, rgb_to_string,
};
use dradu::DraduError;

#[test]
fn test_directory_traversal() {
    assert!(directory_traversal("/usr/share/.."));
    assert!(directory_traversal("/usr/share/../"));
    assert!(directory_traversal("/usr/share/../share"));
    assert!(directory_traversal("smth/../smth"));
    assert!(directory_traversal("../smth"));
    assert!(!directory_traversal("proper_path"));
    assert!(!directory_traversal("/proper/path"));
    assert!(!directory_traversal("/proper/path/."));
}

#[test]
fn test_validate_path() {
    let fs = AssetDirHandler::new(Some("/home/user/assets".to_string()));
    assert_eq!(
        fs.validate_path("path/to/smth").unwrap(),
        "/home/user/assets/path/to/smth"
    );
    assert_eq!(
        fs.validate_path("./path/to/smth").unwrap(),
        "/home/user/assets/./path/to/smth"
    );
    assert_eq!(fs.validate_path("/abspath/to/smth").unwrap_err(), DraduError::InvalidPath);
    assert_eq!(fs.validate_path("traversal/../../smth").unwrap_err(), DraduError::InvalidPath);
}

#[test]
fn validate_path_without_directory() {
    let fs = AssetDirHandler::new(None);
    assert_eq!(fs.validate_path("a/b").unwrap_err(), DraduError::ProjectDirNotFound);
}

#[test]
fn sandbox_examples() {
    let fs = AssetDirHandler::new(Some("root/".to_string()));
    assert_eq!(fs.validate_path("a/b").unwrap(), "root/a/b");
    assert_eq!(fs.validate_path("./a/b").unwrap(), "root/./a/b");
    assert_eq!(fs.validate_path("/etc/passwd").unwrap_err(), DraduError::InvalidPath);
    assert_eq!(fs.validate_path("a/../../b").unwrap_err(), DraduError::InvalidPath);
}

#[test]
fn version_compatibility() {
    assert_eq!(is_compatible_ver("0.1"), Ok(true));
    assert_eq!(is_compatible_ver("0.27"), Ok(true));
    assert_eq!(is_compatible_ver("1.0"), Ok(false));
    assert_eq!(is_compatible_ver("00.1"), Ok(false));
    assert_eq!(is_compatible_ver("01"), Err(()));
}

#[test]
fn colors_as_text() {
    assert_eq!(rgb_to_string([255, 0, 17]), "255 0 17");
    assert_eq!(parse_color("255 0 17").unwrap(), [255, 0, 17]);
    assert_eq!(parse_color("7").unwrap(), [7, 0, 0]);
    assert_eq!(parse_color("7 +8").unwrap(), [7, 8, 0]);
    assert!(parse_color("").is_err());
    assert!(parse_color("256 0 0").is_err());
    assert!(parse_color("1 2 3 4").is_err());
    assert!(parse_color("1  2").is_err());
}

#[test]
fn placeholder_is_a_purple_square() {
    assert_eq!(get_placeholder_image().size(), [128, 128]);
    let rgba = placeholder_pixels();
    assert_eq!(rgba.len(), 128 * 128 * 4);
    assert_eq!(rgba[..8], [255, 0, 255, 255, 255, 0, 255, 255]);
    assert!(rgba.chunks(4).all(|pixel| pixel == [255, 0, 255, 255]));
}
