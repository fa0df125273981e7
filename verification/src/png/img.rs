//! Images as plain values, and the paths where modified images go.

use vstd::prelude::*;
use crate::error::{Error, Result};

verus! {

/// An RGB image: its size and its channel values, pixel by pixel (`r, g, b, r, g, b, ...`).
#[derive(Clone, Debug)]
pub struct Img {
    pub width: u32,
    pub height: u32,
    pub chans: Vec<u8>,
    pub path: String,
}

impl Img {
    pub fn width(&self) -> (r: u32)
        ensures
            r == self.width,
    {
        self.width
    }

    pub fn height(&self) -> (r: u32)
        ensures
            r == self.height,
    {
        self.height
    }
}

/// `std::path::Path::file_name(..).is_some()`: whether `p` has a last component that names a
/// file. How a path's text splits into components depends on the target platform (its
/// separators and prefixes), so only what holds everywhere is claimed: an empty path names no
/// file. Which other paths name a file is left unsaid.
#[verifier::external_body]
fn has_file_name(p: &str) -> (r: bool)
    ensures
        p@.len() == 0 ==> !r,
{
    std::path::Path::new(p).file_name().is_some()
}

/// `str::strip_suffix`: the text before `suffix`, when `s` ends with it.
/// Claimed as its documentation says: `Some` of the prefix exactly when `s` ends with `suffix`.
#[verifier::external_body]
fn strip_suffix<'a>(s: &'a str, suffix: &str) -> (r: Option<&'a str>)
    ensures
        r is Some <==> (s@.len() >= suffix@.len() && s@.subrange(s@.len() - suffix@.len(), s@.len() as int) == suffix@),
        r matches Some(p) ==> p@ == s@.subrange(0, s@.len() - suffix@.len()),
{
    s.strip_suffix(suffix)
}

/// The path of a modified image made from `p`: `.png` taken off the end, `_mod.png` put on.
pub open spec fn spec_default_modified_path(p: Seq<char>) -> Seq<char> {
    let png = seq!['.', 'p', 'n', 'g'];
    let stem = if p.len() >= 4 && p.subrange(p.len() - 4, p.len() as int) == png { p.subrange(0, p.len() - 4) } else { p };
    stem + seq!['_', 'm', 'o', 'd', '.', 'p', 'n', 'g']
}

/// Where modified images are saved: given paths, or else one made from the initial path.
pub struct ImgPaths {
    paths: Vec<String>,
}

impl ImgPaths {
    pub closed spec fn paths(&self) -> Seq<Seq<char>> {
        self.paths@.map_values(|s: String| s@)
    }

    pub fn new(imgs: Vec<String>) -> (r: Self)
        ensures
            r.paths() == imgs@.map_values(|s: String| s@),
    {
        Self { paths: imgs }
    }

    pub fn new_empty() -> (r: Self)
        ensures
            r.paths() == Seq::<Seq<char>>::empty(),
    {
        let r = Self { paths: Vec::new() };
        assert(r.paths() =~= Seq::<Seq<char>>::empty());
        r
    }

    pub fn new_any(imgs: Option<Vec<String>>) -> (r: Self)
        ensures
            r.paths() == (match imgs {
                Some(v) => v@.map_values(|s: String| s@),
                None => Seq::<Seq<char>>::empty(),
            }),
    {
        match imgs {
            Some(v) => Self::new(v),
            None => Self::new_empty(),
        }
    }

    pub fn is_empty(&self) -> (r: bool)
        ensures
            r == (self.paths().len() == 0),
    {
        self.paths.len() == 0
    }

    /// The path for the modified image number `index`, made from `img_path` when none was given;
    /// an error when `img_path` names no file (as the platform's path rules decide).
    pub fn modified_path(&self, index: usize, img_path: &str) -> (r: Result<String>)
        ensures
            index < self.paths().len() ==> (r matches Ok(p) && p@ == self.paths()[index as int]),
            index >= self.paths().len() ==>
                (r matches Err(Error::PathIsNotAFile(p)) && p@ == img_path@)
                || (r matches Ok(p) && p@ == spec_default_modified_path(img_path@)),
            index >= self.paths().len() && img_path@.len() == 0 ==>
                (r matches Err(Error::PathIsNotAFile(p)) && p@ == img_path@),
    {
        if index < self.paths.len() {
            return Ok(self.paths[index].clone());
        }
        if !has_file_name(img_path) {
            return Err(Error::PathIsNotAFile(String::from_str(img_path)));
        }
        proof { reveal_strlit(".png"); reveal_strlit("_mod.png"); }
        let stem = match strip_suffix(img_path, ".png") {
            Some(p) => p,
            None => img_path,
        };
        let mut path = String::from_str(stem);
        path.append("_mod.png");
        proof {
            assert(".png"@ =~= seq!['.', 'p', 'n', 'g']);
            assert("_mod.png"@ =~= seq!['_', 'm', 'o', 'd', '.', 'p', 'n', 'g']);
        }
        Ok(path)
    }
}

} // verus!
