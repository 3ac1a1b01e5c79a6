//! Where the repository keeps its artifacts, as `/`-separated path text.

use vstd::prelude::*;
use vstd::string::*;
use crate::orch::text::starts_with;

verus! {

/// Production build artifacts (kernel packaging output, release images).
pub const BUILD_DIR: &'static str = "build";

/// Development and test artifacts (disposable boot images, screendumps, logs).
pub const DEV_BUILD_DIR: &'static str = "dev_build";

/// Persistent filesystem regression images.
pub const IMAGES_DIR: &'static str = "images";

/// `rel` taken relative to `base`: an absolute `rel` (leading `/`) stands for
/// itself, an empty `base` adds nothing, else one `/` separates the two.
pub open spec fn join_path(base: Seq<char>, rel: Seq<char>) -> Seq<char> {
    if rel.len() > 0 && rel[0] == '/' {
        rel
    } else if base.len() == 0 {
        rel
    } else if base[base.len() - 1] == '/' {
        base + rel
    } else {
        base + seq!['/'] + rel
    }
}

/// `rel` resolved against `base` (see [`join_path`]).
pub fn resolve(base: &str, rel: &str) -> (p: String)
    ensures
        p@ == join_path(base@, rel@),
{
    proof {
        reveal_strlit("/");
    }
    let n = base.unicode_len();
    let abs = starts_with(rel, "/");
    proof {
        assert("/"@ =~= seq!['/']);
        if rel@.len() > 0 {
            assert(rel@.subrange(0, 1)[0] == rel@[0]);
            assert(rel@.subrange(0, 1) =~= seq![rel@[0]]);
        }
    }
    if abs {
        return String::from_str(rel);
    }
    if n == 0 {
        return String::from_str(rel);
    }
    let mut p = String::from_str(base);
    if base.get_char(n - 1) != '/' {
        p.append("/");
    }
    p.append(rel);
    p
}

/// `<root>/images`.
pub fn images_dir(root: &str) -> (p: String)
    ensures
        p@ == join_path(root@, IMAGES_DIR@),
{
    resolve(root, IMAGES_DIR)
}

/// The file name of a persistent image: `<fs>-image.img`.
pub open spec fn image_file_name(filesystem: Seq<char>) -> Seq<char> {
    filesystem + "-image.img"@
}

/// `<root>/images/<fs>-image.img`.
pub fn persistent_image_path(root: &str, filesystem: &str) -> (p: String)
    ensures
        p@ == join_path(join_path(root@, IMAGES_DIR@), image_file_name(filesystem@)),
{
    let dir = images_dir(root);
    let mut name = String::from_str(filesystem);
    name.append("-image.img");
    resolve(dir.as_str(), name.as_str())
}

/// The disposable boot-image directory: the configured output directory
/// resolved against `root`.
pub fn dev_image_output_dir(root: &str, output_dir: &str) -> (p: String)
    ensures
        p@ == join_path(root@, output_dir@),
{
    resolve(root, output_dir)
}

/// The directories that cleaning removes: `<root>/build` and `<root>/dev_build`.
pub fn cleanup_roots(root: &str) -> (v: Vec<String>)
    ensures
        v@.len() == 2,
        v@[0]@ == join_path(root@, BUILD_DIR@),
        v@[1]@ == join_path(root@, DEV_BUILD_DIR@),
{
    let mut v: Vec<String> = Vec::new();
    v.push(resolve(root, BUILD_DIR));
    v.push(resolve(root, DEV_BUILD_DIR));
    v
}

/// Cleaning never touches the persistent images: neither cleanup root is the
/// images directory.
pub proof fn law_cleanup_spares_images(root: Seq<char>)
    ensures
        join_path(root, BUILD_DIR@) != join_path(root, IMAGES_DIR@),
        join_path(root, DEV_BUILD_DIR@) != join_path(root, IMAGES_DIR@),
{
    reveal_strlit("build");
    reveal_strlit("dev_build");
    reveal_strlit("images");
    let b = join_path(root, BUILD_DIR@);
    let d = join_path(root, DEV_BUILD_DIR@);
    let m = join_path(root, IMAGES_DIR@);
    assert(b[b.len() - 1] == 'd');
    assert(d[d.len() - 1] == 'd');
    assert(m[m.len() - 1] == 's');
}

} // verus!
