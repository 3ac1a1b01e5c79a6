use kolibri_utils::orch::paths::{cleanup_roots, dev_image_output_dir, images_dir, persistent_image_path, resolve};

#[test]
fn persistent_image_naming() {
    let root = "/repo";
    assert_eq!(persistent_image_path(root, "exfat"), String::from("/repo/images/exfat-image.img"));
    assert_eq!(persistent_image_path(root, "ntfs"), String::from("/repo/images/ntfs-image.img"));
}

#[test]
fn cleanup_excludes_images() {
    let root = "/repo";
    let roots = cleanup_roots(root);
    assert!(roots.iter().any(|p| p.ends_with("build")));
    assert!(roots.iter().any(|p| p.ends_with("dev_build")));
    assert!(!roots.iter().any(|p| p.ends_with("images")));
}

#[test]
fn path_joining() {
    assert_eq!(resolve("/repo", "tools/x.py"), "/repo/tools/x.py");
    assert_eq!(resolve("/repo/", "tools"), "/repo/tools");
    assert_eq!(resolve("/repo", "/abs/path"), "/abs/path");
    assert_eq!(resolve("", "rel"), "rel");
    assert_eq!(images_dir("/repo"), "/repo/images");
    assert_eq!(dev_image_output_dir("/repo", "dev_build"), "/repo/dev_build");
    assert_eq!(cleanup_roots("/repo"), vec!["/repo/build", "/repo/dev_build"]);
}
