//! Resolving real SDK packages from an `sdkmanager --list` listing, and the
//! names, URLs and scripts an install is made of.

use vstd::prelude::*;
use crate::numbers::{copy_nums, decimal, lemma_nums_lt_asym_total, lemma_nums_lt_trans, nums_le, nums_less, nums_lt, push_decimal};
use crate::text::{
    chars_eq, chars_of, copy_chars, find_chars, find_from, first_word, first_word_of, is_whitespace,
    is_whitespace_char, lemma_find_from, lemma_find_from_first, lemma_trim_start_indent, lines, lines_of, slice_chars, split_char, split_on_char,
    starts_with, starts_with_chars, string_of, trim, trim_chars, trim_end, trim_start, occurs_at, lemma_split_char_len,
};
use crate::versions::{joined_decimals, law_nums_reads_joined_decimals, nums_of, spec_nums};

verus! {

/// Why an install cannot go on.
#[derive(Debug, PartialEq, Eq)]
pub enum InstallError {
    /// The listing names no stable build-tools package at all.
    NoBuildTools,
    /// The requested API level is not `major[.minor]`.
    UnparsableApi(String),
    /// The listing names no `google_apis` system image for `abi`.
    NoSystemImage { abi: String, api: String },
    /// The command-line tools are published for macOS and Linux only.
    UnsupportedOs(String),
    /// The downloaded cmdline-tools archive is not the expected one.
    DigestMismatch { expected: String, actual: String },
    /// No sha256 is known for the cmdline-tools build and unverified
    /// downloads were not allowed.
    UnverifiedDownload(String),
}

/// The first dot-separated part of `s`: `s.split('.').next()`.
pub open spec fn first_part(s: Seq<char>) -> Seq<char> {
    split_char(s, '.')[0]
}

/// `first_part` on a character sequence.
pub fn first_part_of(s: &[char]) -> (p: Vec<char>)
    ensures
        p@ == first_part(s@),
{
    let mut parts = split_on_char(s, '.');
    proof {
        lemma_split_char_len(s@, '.');
    }
    assert(parts@[0].deep_view() =~= parts@[0]@);
    parts.swap_remove(0)
}

// ---------------------------------------------------------------- build-tools

pub open spec fn build_tools_prefix() -> Seq<char> {
    "build-tools;"@
}

/// The version a listing line gives for a build-tools package: the first
/// word after `build-tools;` on the trimmed line.
pub open spec fn build_tools_entry(line: Seq<char>) -> Option<Seq<char>> {
    let t = trim(line);
    if starts_with(t, build_tools_prefix()) {
        Some(first_word(t.skip(build_tools_prefix().len() as int)))
    } else {
        None
    }
}

/// The stable build-tools releases of the listing lines, in order: the
/// version string and its three numbers (`-rc1`, `-preview`, ... drop out).
pub open spec fn build_tools_releases(ls: Seq<Seq<char>>) -> Seq<(Seq<char>, Seq<u64>)>
    decreases ls.len(),
{
    if ls.len() == 0 {
        Seq::empty()
    } else {
        let prev = build_tools_releases(ls.drop_last());
        match build_tools_entry(ls.last()) {
            Some(v) => match spec_nums(v, 3) {
                Some(n) => prev.push((v, n)),
                None => prev,
            },
            None => prev,
        }
    }
}

/// The greatest of the number lists (`Iterator::max`).
pub open spec fn max_nums(c: Seq<Seq<u64>>) -> Option<Seq<u64>>
    decreases c.len(),
{
    if c.len() == 0 {
        None
    } else {
        match max_nums(c.drop_last()) {
            None => Some(c.last()),
            Some(m) => if nums_le(m, c.last()) {
                Some(c.last())
            } else {
                Some(m)
            },
        }
    }
}

/// The releases whose version shares its first part with `major`.
pub open spec fn same_major_releases(r: Seq<(Seq<char>, Seq<u64>)>, major: Seq<char>) -> Seq<Seq<u64>>
    decreases r.len(),
{
    if r.len() == 0 {
        Seq::empty()
    } else {
        let prev = same_major_releases(r.drop_last(), major);
        if first_part(r.last().0) == major {
            prev.push(r.last().1)
        } else {
            prev
        }
    }
}

pub open spec fn release_numbers(r: Seq<(Seq<char>, Seq<u64>)>) -> Seq<Seq<u64>> {
    r.map_values(|e: (Seq<char>, Seq<u64>)| e.1)
}

/// The build-tools release for platform `api`: the highest stable release
/// whose major is the platform's major, else the highest stable release.
pub open spec fn spec_build_tools(listing: Seq<char>, api: Seq<char>) -> Option<Seq<u64>> {
    let r = build_tools_releases(lines(listing));
    match max_nums(same_major_releases(r, first_part(api))) {
        Some(m) => Some(m),
        None => max_nums(release_numbers(r)),
    }
}

/// `major.minor.micro`.
pub open spec fn dotted3(n: Seq<u64>) -> Seq<char> {
    decimal(n[0] as nat) + seq!['.'] + decimal(n[1] as nat) + seq!['.'] + decimal(n[2] as nat)
}

/// Keeps `best` the greatest of what it has seen and `n`.
fn keep_max(best: &mut Option<Vec<u64>>, n: &Vec<u64>)
    ensures
        match *old(best) {
            None => final(best).is_some() && final(best).unwrap()@ == n@,
            Some(m) => final(best).is_some() && final(best).unwrap()@ == (if nums_le(m@, n@) {
                n@
            } else {
                m@
            }),
        },
{
    let replace = match best {
        None => true,
        Some(m) => {
            proof {
                lemma_nums_lt_asym_total(m@, n@);
            }
            !nums_less(n.as_slice(), m.as_slice())
        },
    };
    if replace {
        *best = Some(copy_nums(n.as_slice()));
    }
}

pub open spec fn opt_nums(o: Option<Vec<u64>>) -> Option<Seq<u64>> {
    match o {
        Some(v) => Some(v@),
        None => None,
    }
}

/// `major.minor.micro` for a three-number list.
fn render_dotted3(n: &Vec<u64>) -> (s: String)
    requires
        n@.len() == 3,
    ensures
        s@ == dotted3(n@),
{
    let mut out: Vec<char> = Vec::new();
    push_decimal(n[0], &mut out);
    out.push('.');
    push_decimal(n[1], &mut out);
    out.push('.');
    push_decimal(n[2], &mut out);
    assert(out@ =~= dotted3(n@));
    string_of(out.as_slice())
}

/// Build-tools packages are versioned independently of platform API levels
/// (`build-tools;37.0.0` exists but `build-tools;37.2.0.0` never will): picks
/// the highest stable release matching the platform's major, else the
/// highest stable release overall.
pub fn resolve_build_tools_version(listing: &str, api: &str) -> (r: Result<String, InstallError>)
    ensures
        match spec_build_tools(listing@, api@) {
            Some(n) => r matches Ok(s) && s@ == dotted3(n),
            None => r == Err::<String, InstallError>(InstallError::NoBuildTools),
        },
{
    let lc = chars_of(listing);
    let ac = chars_of(api);
    let major = first_part_of(ac.as_slice());
    let ls = lines_of(lc.as_slice());
    let ghost lv = ls.deep_view();
    let prefix = chars_of("build-tools;");
    let mut same: Option<Vec<u64>> = None;
    let mut all: Option<Vec<u64>> = None;
    let mut i: usize = 0;
    assert(lv.take(0) =~= Seq::<Seq<char>>::empty());
    assert(release_numbers(Seq::empty()) =~= Seq::<Seq<u64>>::empty());
    while i < ls.len()
        invariant
            lv == ls.deep_view(),
            lv == lines(listing@),
            prefix@ == build_tools_prefix(),
            major@ == first_part(api@),
            i <= ls.len(),
            opt_nums(same) == max_nums(same_major_releases(build_tools_releases(lv.take(i as int)), major@)),
            opt_nums(all) == max_nums(release_numbers(build_tools_releases(lv.take(i as int)))),
            same matches Some(m) ==> m@.len() == 3,
            all matches Some(m) ==> m@.len() == 3,
        decreases ls.len() - i,
    {
        let ghost before = build_tools_releases(lv.take(i as int));
        assert(lv.take(i + 1).drop_last() =~= lv.take(i as int));
        assert(ls@[i as int].deep_view() =~= ls@[i as int]@);
        let t = trim_chars(ls[i].as_slice());
        if starts_with_chars(t.as_slice(), prefix.as_slice()) {
            let rest = slice_chars(t.as_slice(), prefix.len(), t.len());
            assert(rest@ =~= t@.skip(build_tools_prefix().len() as int));
            let v = first_word_of(rest.as_slice());
            match nums_of(v.as_slice(), 3) {
                Some(n) => {
                    let ghost after = before.push((v@, n@));
                    assert(build_tools_releases(lv.take(i + 1)) == after);
                    assert(after.drop_last() =~= before);
                    assert(release_numbers(after) =~= release_numbers(before).push(n@));
                    assert(release_numbers(after).drop_last() =~= release_numbers(before));
                    let fp = first_part_of(v.as_slice());
                    if chars_eq(fp.as_slice(), major.as_slice()) {
                        keep_max(&mut same, &n);
                        assert(same_major_releases(after, major@) =~= same_major_releases(before, major@).push(n@));
                        assert(same_major_releases(after, major@).drop_last() =~= same_major_releases(before, major@));
                    } else {
                        assert(same_major_releases(after, major@) == same_major_releases(before, major@));
                    }
                    keep_max(&mut all, &n);
                },
                None => {
                    assert(build_tools_releases(lv.take(i + 1)) == before);
                },
            }
        } else {
            assert(build_tools_releases(lv.take(i + 1)) == before);
        }
        i += 1;
    }
    assert(lv.take(ls.len() as int) =~= lv);
    let best = match same {
        Some(m) => Some(m),
        None => all,
    };
    match best {
        Some(n) => Ok(render_dotted3(&n)),
        None => Err(InstallError::NoBuildTools),
    }
}

// --------------------------------------------------------------- system image

pub open spec fn system_image_prefix() -> Seq<char> {
    "system-images;android-"@
}

/// What must follow an image id: the `google_apis` tag and the ABI.
pub open spec fn image_suffix(abi: Seq<char>) -> Seq<char> {
    ";google_apis;"@ + abi
}

/// The id of a `google_apis` system image for `abi` named on a listing
/// line: the line (trimmed) is `system-images;android-<id>;google_apis;<abi>`
/// followed by whitespace, so `google_apis_playstore` and other ABIs do not
/// count.
pub open spec fn system_image_entry(line: Seq<char>, abi: Seq<char>) -> Option<Seq<char>> {
    let t = trim(line);
    if !starts_with(t, system_image_prefix()) {
        None
    } else {
        let rest = t.skip(system_image_prefix().len() as int);
        match find_from(rest, seq![';'], 0) {
            None => None,
            Some(e) => {
                let after = rest.skip(e);
                let sfx = image_suffix(abi);
                if starts_with(after, sfx) && after.len() > sfx.len() && is_whitespace(
                    after[sfx.len() as int],
                ) {
                    Some(rest.take(e))
                } else {
                    None
                }
            },
        }
    }
}

/// An image as the resolver weighs it: its exact id and the id's numbers.
pub type ImageView = (Seq<char>, Seq<u64>);

/// The images of the listing lines whose ids are `major[.minor]`, in order
/// (extension and preview ids such as `36-ext18` or `37-rc1` drop out).
pub open spec fn system_images(ls: Seq<Seq<char>>, abi: Seq<char>) -> Seq<ImageView>
    decreases ls.len(),
{
    if ls.len() == 0 {
        Seq::empty()
    } else {
        let prev = system_images(ls.drop_last(), abi);
        match system_image_entry(ls.last(), abi) {
            Some(id) => match spec_nums(id, 2) {
                Some(n) => prev.push((id, n)),
                None => prev,
            },
            None => prev,
        }
    }
}

/// The images with the target's major that are at most (`at_most`) or above
/// (`!at_most`) the target.
pub open spec fn same_major_images(imgs: Seq<ImageView>, target: Seq<u64>, at_most: bool) -> Seq<ImageView>
    decreases imgs.len(),
{
    if imgs.len() == 0 {
        Seq::empty()
    } else {
        let prev = same_major_images(imgs.drop_last(), target, at_most);
        let e = imgs.last();
        if e.1[0] == target[0] && nums_le(e.1, target) == at_most {
            prev.push(e)
        } else {
            prev
        }
    }
}

/// The last image with the greatest numbers (`Iterator::max_by_key`).
pub open spec fn last_max(c: Seq<ImageView>) -> Option<ImageView>
    decreases c.len(),
{
    if c.len() == 0 {
        None
    } else {
        match last_max(c.drop_last()) {
            None => Some(c.last()),
            Some(m) => if nums_le(m.1, c.last().1) {
                Some(c.last())
            } else {
                Some(m)
            },
        }
    }
}

/// The first image with the least numbers (`Iterator::min_by_key`).
pub open spec fn first_min(c: Seq<ImageView>) -> Option<ImageView>
    decreases c.len(),
{
    if c.len() == 0 {
        None
    } else {
        match first_min(c.drop_last()) {
            None => Some(c.last()),
            Some(m) => if nums_lt(c.last().1, m.1) {
                Some(c.last())
            } else {
                Some(m)
            },
        }
    }
}

/// The image for `target`: the highest same-major image at or below it,
/// then the closest same-major one above it, then the highest of all.
pub open spec fn chosen_image(imgs: Seq<ImageView>, target: Seq<u64>) -> Option<ImageView> {
    match last_max(same_major_images(imgs, target, true)) {
        Some(e) => Some(e),
        None => match first_min(same_major_images(imgs, target, false)) {
            Some(e) => Some(e),
            None => last_max(imgs),
        },
    }
}

pub open spec fn opt_image(o: Option<(Vec<char>, Vec<u64>)>) -> Option<ImageView> {
    match o {
        Some(e) => Some((e.0@, e.1@)),
        None => None,
    }
}

/// Keeps `best` the last greatest of what it has seen and `(id, key)`.
fn keep_last_max(best: &mut Option<(Vec<char>, Vec<u64>)>, id: &Vec<char>, key: &Vec<u64>)
    ensures
        opt_image(*final(best)) == Some(
            match opt_image(*old(best)) {
                None => (id@, key@),
                Some(m) => if nums_le(m.1, key@) {
                    (id@, key@)
                } else {
                    m
                },
            },
        ),
{
    let replace = match best {
        None => true,
        Some(m) => {
            proof {
                lemma_nums_lt_asym_total(m.1@, key@);
            }
            !nums_less(key.as_slice(), m.1.as_slice())
        },
    };
    if replace {
        *best = Some((copy_chars(id.as_slice()), copy_nums(key.as_slice())));
    }
}

/// Keeps `best` the first least of what it has seen and `(id, key)`.
fn keep_first_min(best: &mut Option<(Vec<char>, Vec<u64>)>, id: &Vec<char>, key: &Vec<u64>)
    ensures
        opt_image(*final(best)) == Some(
            match opt_image(*old(best)) {
                None => (id@, key@),
                Some(m) => if nums_lt(key@, m.1) {
                    (id@, key@)
                } else {
                    m
                },
            },
        ),
{
    let replace = match best {
        None => true,
        Some(m) => nums_less(key.as_slice(), m.1.as_slice()),
    };
    if replace {
        *best = Some((copy_chars(id.as_slice()), copy_nums(key.as_slice())));
    }
}

/// System-image ids are published as either a bare major (`android-36`) or
/// with an explicit `.0` (`android-37.0`), and preview levels often have none,
/// so the winning candidate's exact id is returned. Prefers the highest
/// same-major image at or below the requested level, then the closest one
/// above, then the highest available for any major.
pub fn resolve_system_image_id(listing: &str, api: &str, abi: &str) -> (r: Result<String, InstallError>)
    ensures
        match spec_nums(api@, 2) {
            None => r matches Err(InstallError::UnparsableApi(a)) && a@ == api@,
            Some(target) => match chosen_image(system_images(lines(listing@), abi@), target) {
                Some(e) => r matches Ok(s) && s@ == e.0,
                None => r matches Err(InstallError::NoSystemImage { abi: b, api: a }) && b@ == abi@
                    && a@ == api@,
            },
        },
{
    let ac = chars_of(api);
    let target = match nums_of(ac.as_slice(), 2) {
        Some(t) => t,
        None => {
            return Err(InstallError::UnparsableApi(string_of(ac.as_slice())));
        },
    };
    let lc = chars_of(listing);
    let ls = lines_of(lc.as_slice());
    let ghost lv = ls.deep_view();
    let prefix = chars_of("system-images;android-");
    let mut sfx = chars_of(";google_apis;");
    let abi_chars = chars_of(abi);
    let mut k: usize = 0;
    while k < abi_chars.len()
        invariant
            k <= abi_chars.len(),
            sfx@ == ";google_apis;"@ + abi_chars@.take(k as int),
        decreases abi_chars.len() - k,
    {
        sfx.push(abi_chars[k]);
        assert(abi_chars@.take(k + 1) =~= abi_chars@.take(k as int).push(abi_chars@[k as int]));
        assert(";google_apis;"@ + abi_chars@.take(k + 1) =~= (";google_apis;"@ + abi_chars@.take(
            k as int,
        )).push(abi_chars@[k as int]));
        k += 1;
    }
    assert(abi_chars@.take(abi_chars.len() as int) =~= abi_chars@);
    let semi: Vec<char> = vec![';'];
    assert(semi@ =~= seq![';']);
    let mut le: Option<(Vec<char>, Vec<u64>)> = None;
    let mut gt: Option<(Vec<char>, Vec<u64>)> = None;
    let mut any: Option<(Vec<char>, Vec<u64>)> = None;
    let mut i: usize = 0;
    assert(lv.take(0) =~= Seq::<Seq<char>>::empty());
    while i < ls.len()
        invariant
            lv == ls.deep_view(),
            lv == lines(listing@),
            prefix@ == system_image_prefix(),
            sfx@ == image_suffix(abi@),
            semi@ == seq![';'],
            target@.len() == 2,
            i <= ls.len(),
            opt_image(le) == last_max(same_major_images(system_images(lv.take(i as int), abi@), target@, true)),
            opt_image(gt) == first_min(same_major_images(system_images(lv.take(i as int), abi@), target@, false)),
            opt_image(any) == last_max(system_images(lv.take(i as int), abi@)),
        decreases ls.len() - i,
    {
        let ghost before = system_images(lv.take(i as int), abi@);
        assert(lv.take(i + 1).drop_last() =~= lv.take(i as int));
        assert(ls@[i as int].deep_view() =~= ls@[i as int]@);
        let t = trim_chars(ls[i].as_slice());
        let mut found: Option<(Vec<char>, Vec<u64>)> = None;
        if starts_with_chars(t.as_slice(), prefix.as_slice()) {
            let rest = slice_chars(t.as_slice(), prefix.len(), t.len());
            assert(rest@ =~= t@.skip(system_image_prefix().len() as int));
            match find_chars(rest.as_slice(), semi.as_slice(), 0) {
                Some(e) => {
                    proof {
                        lemma_find_from(rest@, semi@, 0);
                    }
                    let after = slice_chars(rest.as_slice(), e, rest.len());
                    assert(after@ =~= rest@.skip(e as int));
                    if starts_with_chars(after.as_slice(), sfx.as_slice()) && after.len() > sfx.len()
                        && is_whitespace_char(after[sfx.len()]) {
                        let id = slice_chars(rest.as_slice(), 0, e);
                        assert(id@ =~= rest@.take(e as int));
                        match nums_of(id.as_slice(), 2) {
                            Some(n) => {
                                found = Some((id, n));
                            },
                            None => {},
                        }
                    }
                },
                None => {},
            }
        }
        match found {
            Some(f) => {
                let ghost e = (f.0@, f.1@);
                let ghost after = before.push(e);
                assert(system_images(lv.take(i + 1), abi@) == after);
                assert(after.drop_last() =~= before);
                let same_major = f.1[0] == target[0];
                proof {
                    lemma_nums_lt_asym_total(target@, f.1@);
                }
                let at_most = !nums_less(target.as_slice(), f.1.as_slice());
                assert(at_most == nums_le(e.1, target@));
                let ghost le_before = same_major_images(before, target@, true);
                let ghost gt_before = same_major_images(before, target@, false);
                if same_major && at_most {
                    keep_last_max(&mut le, &f.0, &f.1);
                    assert(same_major_images(after, target@, true) =~= le_before.push(e));
                    assert(le_before.push(e).drop_last() =~= le_before);
                    assert(same_major_images(after, target@, false) == gt_before);
                } else if same_major {
                    keep_first_min(&mut gt, &f.0, &f.1);
                    assert(same_major_images(after, target@, false) =~= gt_before.push(e));
                    assert(gt_before.push(e).drop_last() =~= gt_before);
                    assert(same_major_images(after, target@, true) == le_before);
                } else {
                    assert(same_major_images(after, target@, true) == le_before);
                    assert(same_major_images(after, target@, false) == gt_before);
                }
                keep_last_max(&mut any, &f.0, &f.1);
            },
            None => {
                assert(system_images(lv.take(i + 1), abi@) == before);
            },
        }
        i += 1;
    }
    assert(lv.take(ls.len() as int) =~= lv);
    let best = match le {
        Some(e) => Some(e),
        None => match gt {
            Some(e) => Some(e),
            None => any,
        },
    };
    match best {
        Some(e) => Ok(string_of(e.0.as_slice())),
        None => Err(
            InstallError::NoSystemImage {
                abi: string_of(abi_chars.as_slice()),
                api: string_of(ac.as_slice()),
            },
        ),
    }
}

impl InstallError {
    /// The message shown for this error.
    pub fn message(&self) -> (m: String)
        ensures
            match self {
                InstallError::NoBuildTools => m@
                    == "no build-tools package found in the Android SDK repository"@,
                InstallError::UnparsableApi(api) => m@ == "cannot parse Android API level '"@
                    + api@ + "'"@,
                InstallError::NoSystemImage { abi, api } => m@ == "no "@ + abi@
                    + " system image found for Android API "@ + api@ + " in the SDK repository"@,
                InstallError::UnsupportedOs(os) => m@
                    == "unsupported OS for Android cmdline-tools: "@ + os@,
                InstallError::DigestMismatch { expected, actual } => m@
                    == "Android cmdline-tools download failed verification: expected sha256 "@
                    + expected@ + ", got "@ + actual@,
                InstallError::UnverifiedDownload(build) => m@
                    == "no known sha256 for Android cmdline-tools build "@ + build@
                    + " (set ANDROID_CMDLINE_TOOLS_SHA256, or AVM_ALLOW_UNVERIFIED=1 to skip the check)"@,
            },
    {
        match self {
            InstallError::NoBuildTools => String::from_str(
                "no build-tools package found in the Android SDK repository",
            ),
            InstallError::UnparsableApi(api) => {
                let mut m = String::from_str("cannot parse Android API level '");
                m.append(api.as_str());
                m.append("'");
                m
            },
            InstallError::NoSystemImage { abi, api } => {
                let mut m = String::from_str("no ");
                m.append(abi.as_str());
                m.append(" system image found for Android API ");
                m.append(api.as_str());
                m.append(" in the SDK repository");
                m
            },
            InstallError::UnsupportedOs(os) => {
                let mut m = String::from_str("unsupported OS for Android cmdline-tools: ");
                m.append(os.as_str());
                m
            },
            InstallError::DigestMismatch { expected, actual } => {
                let mut m = String::from_str(
                    "Android cmdline-tools download failed verification: expected sha256 ",
                );
                m.append(expected.as_str());
                m.append(", got ");
                m.append(actual.as_str());
                m
            },
            InstallError::UnverifiedDownload(build) => {
                let mut m = String::from_str("no known sha256 for Android cmdline-tools build ");
                m.append(build.as_str());
                m.append(
                    " (set ANDROID_CMDLINE_TOOLS_SHA256, or AVM_ALLOW_UNVERIFIED=1 to skip the check)",
                );
                m
            },
        }
    }
}

// ------------------------------------------------------- names, URLs, scripts

/// The system-image ABI for a CPU architecture (`std::env::consts::ARCH`).
pub fn abi_for_arch(arch: &str) -> (abi: &'static str)
    ensures
        abi@ == (if arch@ == "aarch64"@ {
            "arm64-v8a"@
        } else {
            "x86_64"@
        }),
{
    let a = chars_of(arch);
    let target = chars_of("aarch64");
    if chars_eq(a.as_slice(), target.as_slice()) {
        "arm64-v8a"
    } else {
        "x86_64"
    }
}

/// The `sdkmanager` package of the `google_apis` system image `system_image`
/// for `abi`.
pub fn sysimg_package(system_image: &str, abi: &str) -> (p: String)
    ensures
        p@ == system_image_prefix() + system_image@ + image_suffix(abi@),
{
    let mut p = String::from_str("system-images;android-");
    p.append(system_image);
    p.append(";google_apis;");
    p.append(abi);
    p
}

/// The cmdline-tools download for the OS (`std::env::consts::OS`) and
/// build number.
pub fn cmdline_tools_url(os: &str, build: &str) -> (r: Result<String, InstallError>)
    ensures
        os@ == "macos"@ ==> (r matches Ok(u) && u@
            == "https://dl.google.com/android/repository/commandlinetools-mac-"@ + build@
            + "_latest.zip"@),
        os@ == "linux"@ ==> (r matches Ok(u) && u@
            == "https://dl.google.com/android/repository/commandlinetools-linux-"@ + build@
            + "_latest.zip"@),
        os@ != "macos"@ && os@ != "linux"@ ==> (r matches Err(InstallError::UnsupportedOs(o))
            && o@ == os@),
{
    let o = chars_of(os);
    let mac = chars_of("macos");
    let linux = chars_of("linux");
    proof {
        reveal_strlit("macos");
        reveal_strlit("linux");
        assert("linux"@[0] != "macos"@[0]);
    }
    let mut u = if chars_eq(o.as_slice(), mac.as_slice()) {
        String::from_str("https://dl.google.com/android/repository/commandlinetools-mac-")
    } else if chars_eq(o.as_slice(), linux.as_slice()) {
        String::from_str("https://dl.google.com/android/repository/commandlinetools-linux-")
    } else {
        return Err(InstallError::UnsupportedOs(String::from_str(os)));
    };
    u.append(build);
    u.append("_latest.zip");
    Ok(u)
}

/// The shell wrapper that runs `target` with `ANDROID_HOME` and
/// `ANDROID_SDK_ROOT` pointed at `sdk`.
pub fn wrapper_script(sdk: &str, target: &str) -> (s: String)
    ensures
        s@ == "#!/usr/bin/env sh\nexport ANDROID_HOME=\""@ + sdk@
            + "\"\nexport ANDROID_SDK_ROOT=\""@ + sdk@ + "\"\nexec \""@ + target@
            + "\" \"$@\"\n"@,
{
    let mut s = String::from_str("#!/usr/bin/env sh\nexport ANDROID_HOME=\"");
    s.append(sdk);
    s.append("\"\nexport ANDROID_SDK_ROOT=\"");
    s.append(sdk);
    s.append("\"\nexec \"");
    s.append(target);
    s.append("\" \"$@\"\n");
    s
}

/// The packages an install of API `version` asks `sdkmanager` for besides
/// the emulator and the system image.
pub fn platform_packages(version: &str, build_tools: &str) -> (ps: Vec<String>)
    ensures
        ps@.len() == 3,
        ps@[0]@ == "platform-tools"@,
        ps@[1]@ == "platforms;android-"@ + version@,
        ps@[2]@ == "build-tools;"@ + build_tools@,
{
    let mut platform = String::from_str("platforms;android-");
    platform.append(version);
    let mut tools = String::from_str("build-tools;");
    tools.append(build_tools);
    let mut ps: Vec<String> = Vec::new();
    ps.push(String::from_str("platform-tools"));
    ps.push(platform);
    ps.push(tools);
    ps
}

/// The `sdkmanager` arguments that install `extra`, the emulator and the
/// system-image package, after `--sdk_root`.
pub fn sdkmanager_install_args(extra: &[String], package: &str) -> (args: Vec<String>)
    ensures
        args@.len() == extra@.len() + 2,
        forall|i: int| 0 <= i < extra@.len() ==> #[trigger] args@[i]@ == extra@[i]@,
        args@[extra@.len() as int]@ == "emulator"@,
        args@[extra@.len() as int + 1]@ == package@,
{
    let mut args: Vec<String> = Vec::new();
    let mut i: usize = 0;
    while i < extra.len()
        invariant
            i <= extra@.len(),
            args@.len() == i,
            forall|k: int| 0 <= k < i ==> #[trigger] args@[k]@ == extra@[k]@,
        decreases extra.len() - i,
    {
        args.push(extra[i].clone());
        i += 1;
    }
    args.push(String::from_str("emulator"));
    args.push(String::from_str(package));
    args
}

/// What an install of a version still has to do.
#[derive(Debug, PartialEq, Eq)]
pub enum InstallPlan {
    /// The platform and a complete system image are there: only the
    /// wrapper scripts are (re)written.
    WrappersOnly,
    /// The packages are fetched through `sdkmanager`, which is first
    /// bootstrapped from the cmdline-tools download when `bootstrap`.
    Packages { bootstrap: bool },
}

/// The plan for an install, from what the SDK directory already holds: the
/// platform package, a complete system image (`system.img` present), and
/// `cmdline-tools/latest/bin/sdkmanager`.
pub fn install_plan(platform_present: bool, image_complete: bool, sdkmanager_present: bool) -> (p: InstallPlan)
    ensures
        platform_present && image_complete ==> p == InstallPlan::WrappersOnly,
        !(platform_present && image_complete) ==> p == (InstallPlan::Packages { bootstrap: !sdkmanager_present }),
{
    if platform_present && image_complete {
        InstallPlan::WrappersOnly
    } else {
        InstallPlan::Packages { bootstrap: !sdkmanager_present }
    }
}

// ------------------------------------------------------- download verification

/// The sha256 Google publishes for a cmdline-tools download: known for the
/// build installed by default, on Linux and macOS.
pub open spec fn pinned_digest(os: Seq<char>, build: Seq<char>) -> Option<Seq<char>> {
    if build == "11076708"@ && os == "linux"@ {
        Some("2d2d50857e4eb553af5a6dc3ad507a17adf43d115264b1afc116f95c92e5e258"@)
    } else if build == "11076708"@ && os == "macos"@ {
        Some("7bc5c72ba0275c80a8f19684fb92793b83a6b5c94d4d179fc5988930282d7e64"@)
    } else {
        None
    }
}

/// A character with ASCII capitals made small.
pub open spec fn ascii_lower(c: char) -> char {
    if 'A' <= c && c <= 'Z' {
        (c as int + 32) as char
    } else {
        c
    }
}

/// A text with ASCII capitals made small: hex digests compare this way.
pub open spec fn lowered(s: Seq<char>) -> Seq<char> {
    s.map_values(|c: char| ascii_lower(c))
}

/// The digest a download must have: the one given, else the pinned one.
pub open spec fn wanted_digest(os: Seq<char>, build: Seq<char>, given: Option<Seq<char>>) -> Option<Seq<char>> {
    match given {
        Some(d) => Some(d),
        None => pinned_digest(os, build),
    }
}

/// `lowered` on a character sequence.
fn lower_chars(s: &[char]) -> (t: Vec<char>)
    ensures
        t@ == lowered(s@),
{
    let mut t: Vec<char> = Vec::new();
    let mut i: usize = 0;
    while i < s.len()
        invariant
            i <= s.len(),
            t@ == lowered(s@.take(i as int)),
        decreases s.len() - i,
    {
        let c = s[i];
        let l = if 'A' <= c && c <= 'Z' {
            ((c as u8) + 32u8) as char
        } else {
            c
        };
        assert(l == ascii_lower(c));
        t.push(l);
        assert(lowered(s@.take(i + 1)) =~= lowered(s@.take(i as int)).push(ascii_lower(s@[i as int])));
        i += 1;
    }
    assert(s@.take(s.len() as int) =~= s@);
    t
}

/// The pinned sha256 of a cmdline-tools download, if one is known.
pub fn pinned_cmdline_tools_sha256(os: &str, build: &str) -> (d: Option<&'static str>)
    ensures
        match pinned_digest(os@, build@) {
            Some(p) => d matches Some(x) && x@ == p,
            None => d is None,
        },
{
    let o = chars_of(os);
    let b = chars_of(build);
    let pinned_build = chars_of("11076708");
    let linux = chars_of("linux");
    let mac = chars_of("macos");
    if !chars_eq(b.as_slice(), pinned_build.as_slice()) {
        return None;
    }
    if chars_eq(o.as_slice(), linux.as_slice()) {
        Some("2d2d50857e4eb553af5a6dc3ad507a17adf43d115264b1afc116f95c92e5e258")
    } else if chars_eq(o.as_slice(), mac.as_slice()) {
        Some("7bc5c72ba0275c80a8f19684fb92793b83a6b5c94d4d179fc5988930282d7e64")
    } else {
        None
    }
}

/// The digest a `sha256sum` / `shasum -a 256` line reports: its first word.
pub fn digest_of_tool_output(output: &str) -> (d: String)
    ensures
        d@ == first_word(output@),
{
    let oc = chars_of(output);
    let w = first_word_of(oc.as_slice());
    string_of(w.as_slice())
}

/// Whether the downloaded cmdline-tools archive, whose sha256 is `actual`,
/// may be extracted: it must match the digest given
/// (`ANDROID_CMDLINE_TOOLS_SHA256`), else the pinned one, compared without
/// regard to hex letter case; with neither, only when unverified downloads
/// are allowed (`AVM_ALLOW_UNVERIFIED=1`).
pub fn check_download(
    os: &str,
    build: &str,
    given: Option<&str>,
    allow_unverified: bool,
    actual: &str,
) -> (r: Result<(), InstallError>)
    ensures
        ({
            let given_view = match given {
                Some(g) => Some(g@),
                None => None,
            };
            match wanted_digest(os@, build@, given_view) {
                Some(w) => if lowered(w) == lowered(actual@) {
                    r is Ok
                } else {
                    r matches Err(InstallError::DigestMismatch { expected: e, actual: a }) && e@ == w
                        && a@ == actual@
                },
                None => if allow_unverified {
                    r is Ok
                } else {
                    r matches Err(InstallError::UnverifiedDownload(b)) && b@ == build@
                },
            }
        }),
{
    let want: Option<&str> = match given {
        Some(g) => Some(g),
        None => pinned_cmdline_tools_sha256(os, build),
    };
    match want {
        Some(w) => {
            let wc = chars_of(w);
            let ac = chars_of(actual);
            let wl = lower_chars(wc.as_slice());
            let al = lower_chars(ac.as_slice());
            if chars_eq(wl.as_slice(), al.as_slice()) {
                Ok(())
            } else {
                Err(InstallError::DigestMismatch { expected: String::from_str(w), actual: String::from_str(actual) })
            }
        },
        None => {
            if allow_unverified {
                Ok(())
            } else {
                Err(InstallError::UnverifiedDownload(String::from_str(build)))
            }
        },
    }
}

// ----------------------------------------------------------------------- laws

proof fn lemma_nums_le_trans(a: Seq<u64>, b: Seq<u64>, c: Seq<u64>)
    requires
        nums_le(a, b),
        nums_le(b, c),
    ensures
        nums_le(a, c),
{
    if nums_lt(a, b) && nums_lt(b, c) {
        lemma_nums_lt_trans(a, b, c);
    }
}

/// `max_nums` gives one of the lists, at least as great as each of them.
proof fn lemma_max_nums(c: Seq<Seq<u64>>)
    ensures
        max_nums(c) is None <==> c.len() == 0,
        max_nums(c) matches Some(m) ==> c.contains(m) && forall|i: int|
            0 <= i < c.len() ==> nums_le(#[trigger] c[i], m),
    decreases c.len(),
{
    if c.len() > 0 {
        let p = c.drop_last();
        lemma_max_nums(p);
        let x = c.last();
        assert(c[c.len() - 1] == x);
        match max_nums(p) {
            None => {
                assert(p.len() == 0);
            },
            Some(m) => {
                let k = choose|k: int| 0 <= k < p.len() && p[k] == m;
                assert(c[k] == m);
                lemma_nums_lt_asym_total(m, x);
                assert forall|i: int| 0 <= i < c.len() implies nums_le(#[trigger] c[i], max_nums(c).unwrap()) by {
                    if i < c.len() - 1 {
                        assert(c[i] == p[i]);
                        if nums_le(m, x) {
                            lemma_nums_le_trans(c[i], m, x);
                        }
                    }
                }
            },
        }
    }
}

/// `last_max` gives one of the images, with numbers at least those of each.
proof fn lemma_last_max(c: Seq<ImageView>)
    ensures
        last_max(c) is None <==> c.len() == 0,
        last_max(c) matches Some(m) ==> c.contains(m) && forall|i: int|
            0 <= i < c.len() ==> nums_le(#[trigger] c[i].1, m.1),
    decreases c.len(),
{
    if c.len() > 0 {
        let p = c.drop_last();
        lemma_last_max(p);
        let x = c.last();
        assert(c[c.len() - 1] == x);
        match last_max(p) {
            None => {
                assert(p.len() == 0);
            },
            Some(m) => {
                let k = choose|k: int| 0 <= k < p.len() && p[k] == m;
                assert(c[k] == m);
                lemma_nums_lt_asym_total(m.1, x.1);
                assert forall|i: int| 0 <= i < c.len() implies nums_le(#[trigger] c[i].1, last_max(c).unwrap().1) by {
                    if i < c.len() - 1 {
                        assert(c[i] == p[i]);
                        if nums_le(m.1, x.1) {
                            lemma_nums_le_trans(c[i].1, m.1, x.1);
                        }
                    }
                }
            },
        }
    }
}

/// `first_min` gives one of the images, with numbers at most those of each.
proof fn lemma_first_min(c: Seq<ImageView>)
    ensures
        first_min(c) is None <==> c.len() == 0,
        first_min(c) matches Some(m) ==> c.contains(m) && forall|i: int|
            0 <= i < c.len() ==> nums_le(m.1, #[trigger] c[i].1),
    decreases c.len(),
{
    if c.len() > 0 {
        let p = c.drop_last();
        lemma_first_min(p);
        let x = c.last();
        assert(c[c.len() - 1] == x);
        match first_min(p) {
            None => {
                assert(p.len() == 0);
            },
            Some(m) => {
                let k = choose|k: int| 0 <= k < p.len() && p[k] == m;
                assert(c[k] == m);
                lemma_nums_lt_asym_total(m.1, x.1);
                assert forall|i: int| 0 <= i < c.len() implies nums_le(first_min(c).unwrap().1, #[trigger] c[i].1) by {
                    if i < c.len() - 1 {
                        assert(c[i] == p[i]);
                        if nums_lt(x.1, m.1) {
                            lemma_nums_le_trans(x.1, m.1, c[i].1);
                        }
                    }
                }
            },
        }
    }
}

/// The images `same_major_images` keeps are those of `imgs` with the
/// target's major on the chosen side of it.
proof fn lemma_same_major_images(imgs: Seq<ImageView>, target: Seq<u64>, at_most: bool)
    ensures
        forall|x: ImageView|
            #[trigger] same_major_images(imgs, target, at_most).contains(x) <==> imgs.contains(x)
                && x.1[0] == target[0] && nums_le(x.1, target) == at_most,
    decreases imgs.len(),
{
    if imgs.len() > 0 {
        let p = imgs.drop_last();
        lemma_same_major_images(p, target, at_most);
        let x = imgs.last();
        let sp = same_major_images(p, target, at_most);
        let s = same_major_images(imgs, target, at_most);
        assert forall|y: ImageView| #[trigger] s.contains(y) <==> imgs.contains(y) && y.1[0] == target[0]
            && nums_le(y.1, target) == at_most by {
            if imgs.contains(y) {
                let k = choose|k: int| 0 <= k < imgs.len() && imgs[k] == y;
                if k < imgs.len() - 1 {
                    assert(p[k] == y);
                }
            }
            if p.contains(y) {
                let k = choose|k: int| 0 <= k < p.len() && p[k] == y;
                assert(imgs[k] == y);
            }
            if sp.contains(y) {
                let k = choose|k: int| 0 <= k < sp.len() && sp[k] == y;
                if x.1[0] == target[0] && nums_le(x.1, target) == at_most {
                    assert(s[k] == y);
                }
            }
            if x.1[0] == target[0] && nums_le(x.1, target) == at_most {
                assert(s == sp.push(x));
                if s.contains(y) {
                    let k = choose|k: int| 0 <= k < s.len() && s[k] == y;
                    if k < s.len() - 1 {
                        assert(sp[k] == y);
                    }
                }
                assert(s[s.len() - 1] == x);
                assert(imgs[imgs.len() - 1] == x);
            }
        }
    } else {
        assert forall|y: ImageView| !(#[trigger] same_major_images(imgs, target, at_most).contains(y)) by {}
    }
}

/// Which image the resolver settles on, for the images of a listing and a
/// requested level `target`: always one of the images (none only when there
/// are none); the highest same-major image at or below the target if there
/// is one; else the lowest same-major image above it if there is one; else
/// the highest image of all.
pub proof fn law_system_image_choice(imgs: Seq<ImageView>, target: Seq<u64>)
    ensures
        chosen_image(imgs, target) is None <==> imgs.len() == 0,
        chosen_image(imgs, target) matches Some(e) ==> imgs.contains(e),
        (exists|x: ImageView| #[trigger] imgs.contains(x) && x.1[0] == target[0] && nums_le(x.1, target))
            ==> (chosen_image(imgs, target) matches Some(e) && e.1[0] == target[0] && nums_le(e.1, target)
            && forall|x: ImageView|
            #[trigger] imgs.contains(x) && x.1[0] == target[0] && nums_le(x.1, target) ==> nums_le(x.1, e.1)),
        !(exists|x: ImageView| #[trigger] imgs.contains(x) && x.1[0] == target[0] && nums_le(x.1, target))
            && (exists|x: ImageView| #[trigger] imgs.contains(x) && x.1[0] == target[0] && !nums_le(x.1, target))
            ==> (chosen_image(imgs, target) matches Some(e) && e.1[0] == target[0] && !nums_le(e.1, target)
            && forall|x: ImageView|
            #[trigger] imgs.contains(x) && x.1[0] == target[0] && !nums_le(x.1, target) ==> nums_le(e.1, x.1)),
        !(exists|x: ImageView| #[trigger] imgs.contains(x) && x.1[0] == target[0]) ==> (chosen_image(imgs, target) matches Some(e)
            ==> forall|x: ImageView| #[trigger] imgs.contains(x) ==> nums_le(x.1, e.1)),
{
    let le = same_major_images(imgs, target, true);
    let gt = same_major_images(imgs, target, false);
    lemma_same_major_images(imgs, target, true);
    lemma_same_major_images(imgs, target, false);
    lemma_last_max(le);
    lemma_first_min(gt);
    lemma_last_max(imgs);
    assert forall|x: ImageView| #[trigger] le.contains(x) implies imgs.contains(x) by {}
    assert forall|x: ImageView| #[trigger] gt.contains(x) implies imgs.contains(x) by {}
    if exists|x: ImageView| #[trigger] imgs.contains(x) && x.1[0] == target[0] && nums_le(x.1, target) {
        let x = choose|x: ImageView| #[trigger] imgs.contains(x) && x.1[0] == target[0] && nums_le(x.1, target);
        assert(le.contains(x));
        assert(le.len() > 0);
        let e = last_max(le).unwrap();
        assert forall|y: ImageView|
            #[trigger] imgs.contains(y) && y.1[0] == target[0] && nums_le(y.1, target) implies nums_le(y.1, e.1) by {
            assert(le.contains(y));
            let k = choose|k: int| 0 <= k < le.len() && le[k] == y;
        }
    } else if exists|x: ImageView| #[trigger] imgs.contains(x) && x.1[0] == target[0] && !nums_le(x.1, target) {
        let x = choose|x: ImageView| #[trigger] imgs.contains(x) && x.1[0] == target[0] && !nums_le(x.1, target);
        assert(gt.contains(x));
        assert(le.len() == 0) by {
            if le.len() > 0 {
                assert(le.contains(le[0]));
            }
        }
        let e = first_min(gt).unwrap();
        assert forall|y: ImageView|
            #[trigger] imgs.contains(y) && y.1[0] == target[0] && !nums_le(y.1, target) implies nums_le(e.1, y.1) by {
            assert(gt.contains(y));
            let k = choose|k: int| 0 <= k < gt.len() && gt[k] == y;
        }
    } else {
        assert(le.len() == 0) by {
            if le.len() > 0 {
                assert(le.contains(le[0]));
            }
        }
        assert(gt.len() == 0) by {
            if gt.len() > 0 {
                assert(gt.contains(gt[0]));
            }
        }
        if imgs.len() > 0 {
            let e = last_max(imgs).unwrap();
            assert forall|y: ImageView| #[trigger] imgs.contains(y) implies nums_le(y.1, e.1) by {
                let k = choose|k: int| 0 <= k < imgs.len() && imgs[k] == y;
            }
        }
    }
}

/// The numbers `same_major_releases` keeps are those of the releases whose
/// version has the given first part.
proof fn lemma_same_major_releases(r: Seq<(Seq<char>, Seq<u64>)>, major: Seq<char>)
    ensures
        forall|x: Seq<u64>|
            #[trigger] same_major_releases(r, major).contains(x) <==> exists|i: int|
                0 <= i < r.len() && first_part(r[i].0) == major && #[trigger] r[i].1 == x,
    decreases r.len(),
{
    if r.len() > 0 {
        let p = r.drop_last();
        lemma_same_major_releases(p, major);
        let sp = same_major_releases(p, major);
        let s = same_major_releases(r, major);
        let e = r.last();
        assert forall|x: Seq<u64>| #[trigger] s.contains(x) <==> exists|i: int|
            0 <= i < r.len() && first_part(r[i].0) == major && #[trigger] r[i].1 == x by {
            if exists|i: int| 0 <= i < r.len() && first_part(r[i].0) == major && #[trigger] r[i].1 == x {
                let i = choose|i: int| 0 <= i < r.len() && first_part(r[i].0) == major && #[trigger] r[i].1 == x;
                if i < r.len() - 1 {
                    assert(p[i] == r[i]);
                    assert(sp.contains(x));
                    let k = choose|k: int| 0 <= k < sp.len() && sp[k] == x;
                    if first_part(e.0) == major {
                        assert(s[k] == x);
                    }
                } else {
                    assert(s == sp.push(e.1));
                    assert(s[s.len() - 1] == x);
                }
            }
            if s.contains(x) {
                let k = choose|k: int| 0 <= k < s.len() && s[k] == x;
                if first_part(e.0) == major && k == s.len() - 1 {
                    assert(r[r.len() - 1].1 == x);
                } else {
                    assert(sp[k] == x);
                    assert(sp.contains(x));
                    let i = choose|i: int| 0 <= i < p.len() && first_part(p[i].0) == major && #[trigger] p[i].1 == x;
                    assert(r[i] == p[i]);
                }
            }
        }
    } else {
        assert forall|x: Seq<u64>| !(#[trigger] same_major_releases(r, major).contains(x)) by {}
    }
}

/// Which build-tools release the resolver settles on for platform `api`:
/// one of the listing's stable releases (none only when there are none);
/// the highest release with the platform's major if there is one, else the
/// highest release of all.
pub proof fn law_build_tools_choice(listing: Seq<char>, api: Seq<char>)
    ensures
        ({
            let r = build_tools_releases(lines(listing));
            let major = first_part(api);
            &&& spec_build_tools(listing, api) is None <==> r.len() == 0
            &&& (exists|i: int| 0 <= i < r.len() && #[trigger] first_part(r[i].0) == major) ==> (
            spec_build_tools(listing, api) matches Some(n) && (exists|i: int|
                0 <= i < r.len() && #[trigger] first_part(r[i].0) == major && r[i].1 == n) && forall|i: int|
                0 <= i < r.len() && #[trigger] first_part(r[i].0) == major ==> nums_le(r[i].1, n))
            &&& !(exists|i: int| 0 <= i < r.len() && #[trigger] first_part(r[i].0) == major) ==> (
            spec_build_tools(listing, api) matches Some(n) ==> (exists|i: int|
                0 <= i < r.len() && #[trigger] r[i].1 == n) && forall|i: int|
                0 <= i < r.len() ==> nums_le(#[trigger] r[i].1, n))
        }),
{
    let r = build_tools_releases(lines(listing));
    let major = first_part(api);
    let same = same_major_releases(r, major);
    let all = release_numbers(r);
    lemma_same_major_releases(r, major);
    lemma_max_nums(same);
    lemma_max_nums(all);
    assert(all.len() == r.len());
    assert forall|i: int| 0 <= i < r.len() implies all[i] == #[trigger] r[i].1 by {}
    if exists|i: int| 0 <= i < r.len() && #[trigger] first_part(r[i].0) == major {
        let i = choose|i: int| 0 <= i < r.len() && #[trigger] first_part(r[i].0) == major;
        assert(same.contains(r[i].1));
        assert(same.len() > 0);
        let n = max_nums(same).unwrap();
        assert(same.contains(n));
        assert forall|j: int| 0 <= j < r.len() && #[trigger] first_part(r[j].0) == major implies nums_le(r[j].1, n) by {
            assert(same.contains(r[j].1));
            let k = choose|k: int| 0 <= k < same.len() && same[k] == r[j].1;
        }
    } else {
        assert(same.len() == 0) by {
            if same.len() > 0 {
                assert(same.contains(same[0]));
            }
        }
        if r.len() > 0 {
            let n = max_nums(all).unwrap();
            let k = choose|k: int| 0 <= k < all.len() && all[k] == n;
            assert(r[k].1 == n);
        }
    }
}

/// A resolved build-tools version reads back as the release it names:
/// `nums(major.minor.micro, 3)` gives the three numbers again.
pub proof fn law_build_tools_version_reads_back(n: Seq<u64>)
    requires
        n.len() == 3,
    ensures
        spec_nums(dotted3(n), 3) == Some(n),
{
    law_nums_reads_joined_decimals(n, 3);
    assert(n.drop_last().drop_last() =~= seq![n[0]]);
    assert(n.drop_last().drop_last().drop_last().len() == 0);
    assert(joined_decimals(n.drop_last().drop_last()) == decimal(n[0] as nat));
    assert(n.drop_last().last() == n[1]);
    assert(n.last() == n[2]);
    assert(joined_decimals(n.drop_last()) == decimal(n[0] as nat) + seq!['.'] + decimal(n[1] as nat));
    assert(joined_decimals(n) == joined_decimals(n.drop_last()) + seq!['.'] + decimal(n[2] as nat));
    assert(joined_decimals(n) =~= dotted3(n));
    assert(n + Seq::new(0, |i: int| 0u64) =~= n);
}

/// Indenting a listing line does not change the image it names: for every
/// run of whitespace `w`, the line `w + l` names what `l` names.
pub proof fn law_image_entry_ignores_indent(w: Seq<char>, l: Seq<char>, abi: Seq<char>)
    requires
        forall|k: int| 0 <= k < w.len() ==> is_whitespace(#[trigger] w[k]),
    ensures
        system_image_entry(w + l, abi) == system_image_entry(l, abi),
{
    lemma_trim_start_indent(w, l);
}

/// A listing row `system-images;android-<id>;google_apis;<abi> <rest>`,
/// indented or not, names the image `id` (for an id without `;` and a row
/// that does not end in whitespace).
pub proof fn law_image_row_names_its_id(w: Seq<char>, id: Seq<char>, abi: Seq<char>, r: Seq<char>)
    requires
        forall|k: int| 0 <= k < w.len() ==> is_whitespace(#[trigger] w[k]),
        !id.contains(';'),
        r.len() > 0,
        !is_whitespace(r.last()),
    ensures
        system_image_entry(w + (system_image_prefix() + id + image_suffix(abi) + seq![' '] + r), abi)
            == Some(id),
{
    let p = system_image_prefix();
    let sfx = image_suffix(abi);
    let l = p + id + sfx + seq![' '] + r;
    law_image_entry_ignores_indent(w, l, abi);
    reveal_strlit("system-images;android-");
    reveal_strlit(";google_apis;");
    assert(l[0] == 's');
    assert(trim_start(l) == l);
    assert(l.last() == r.last());
    assert(trim_end(l) == l);
    assert(trim(l) == l);
    assert(l.take(p.len() as int) =~= p);
    let rest = l.skip(p.len() as int);
    assert(rest =~= id + sfx + seq![' '] + r);
    assert(sfx[0] == ';');
    assert(rest.subrange(id.len() as int, id.len() as int + 1) =~= seq![';']);
    assert forall|j: int| 0 <= j < id.len() implies !occurs_at(rest, seq![';'], j) by {
        if occurs_at(rest, seq![';'], j) {
            assert(rest.subrange(j, j + 1)[0] == rest[j]);
            assert(rest[j] == id[j]);
            assert(id.contains(';'));
        }
    }
    lemma_find_from_first(rest, seq![';'], 0, id.len() as int);
    let after = rest.skip(id.len() as int);
    assert(after =~= sfx + seq![' '] + r);
    assert(after.take(sfx.len() as int) =~= sfx);
    assert(after[sfx.len() as int] == ' ');
    assert(rest.take(id.len() as int) =~= id);
}

/// An image named on a listing line with a `major[.minor]` id is among
/// the images the resolver weighs.
proof fn lemma_entry_is_candidate(ls: Seq<Seq<char>>, abi: Seq<char>, k: int, id: Seq<char>)
    requires
        0 <= k < ls.len(),
        system_image_entry(ls[k], abi) == Some(id),
        spec_nums(id, 2) is Some,
    ensures
        system_images(ls, abi).contains((id, spec_nums(id, 2).unwrap())),
    decreases ls.len(),
{
    let p = ls.drop_last();
    let e = (id, spec_nums(id, 2).unwrap());
    if k == ls.len() - 1 {
        assert(ls.last() == ls[k]);
        assert(system_images(ls, abi) == system_images(p, abi).push(e));
        assert(system_images(ls, abi)[system_images(p, abi).len() as int] == e);
    } else {
        assert(p[k] == ls[k]);
        lemma_entry_is_candidate(p, abi, k, id);
        let j = choose|j: int| 0 <= j < system_images(p, abi).len() && system_images(p, abi)[j] == e;
        assert(system_images(ls, abi)[j] == e);
    }
}

/// A row of the listing naming a `google_apis` image for `abi` with a
/// `major[.minor]` id, indented or not, makes that image a candidate, and
/// then the resolver settles on some image for every requested level.
pub proof fn law_listed_row_is_candidate(
    listing: Seq<char>,
    k: int,
    w: Seq<char>,
    id: Seq<char>,
    abi: Seq<char>,
    r: Seq<char>,
    target: Seq<u64>,
)
    requires
        0 <= k < lines(listing).len(),
        lines(listing)[k] == w + (system_image_prefix() + id + image_suffix(abi) + seq![' '] + r),
        forall|i: int| 0 <= i < w.len() ==> is_whitespace(#[trigger] w[i]),
        !id.contains(';'),
        r.len() > 0,
        !is_whitespace(r.last()),
        spec_nums(id, 2) is Some,
    ensures
        system_images(lines(listing), abi).contains((id, spec_nums(id, 2).unwrap())),
        chosen_image(system_images(lines(listing), abi), target) is Some,
{
    law_image_row_names_its_id(w, id, abi, r);
    lemma_entry_is_candidate(lines(listing), abi, k, id);
    law_system_image_choice(system_images(lines(listing), abi), target);
}

} // verus!
