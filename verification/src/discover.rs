//! Discovery decisions: validating an install root by its marker file, and
//! selecting per-profile configuration files from directory listings. The
//! thin shell enumerates directories and probes files; every decision about
//! what counts as an install root or a settings file is made here.
use vstd::prelude::*;
use vstd::slice::slice_to_vec;
use vstd::utf8::encode_utf8;

use crate::settings::clone_bytes;
use crate::text::{ends_with, is_prefix, is_suffix, starts_with};

verus! {

/// The single well-known default installation path that is probed.
pub open spec fn spec_default_install_path() -> Seq<u8> {
    encode_utf8("C:/Program Files (x86)/Steam/steamapps/common/Call of Duty"@)
}

/// The marker executable that proves a directory is an install root.
pub open spec fn spec_marker_name() -> Seq<u8> {
    encode_utf8("cod.exe"@)
}

/// The path of the per-profile players directory below the documents root.
pub open spec fn spec_players_dir() -> Seq<u8> {
    encode_utf8("Call of Duty/players"@)
}

/// True when a file name has the settings shape: prefix `g.` and suffix
/// `.txt0` or `.txt1`.
pub open spec fn is_settings_name(name: Seq<u8>) -> bool {
    is_prefix(encode_utf8("g."@), name) && (is_suffix(encode_utf8(".txt0"@), name) || is_suffix(
        encode_utf8(".txt1"@),
        name,
    ))
}

/// The full path of one profile's configuration file below the documents
/// root, joined with `/`.
pub open spec fn spec_config_path(root: Seq<u8>, profile: Seq<u8>, name: Seq<u8>) -> Seq<u8> {
    root + seq![47u8] + spec_players_dir() + seq![47u8] + profile + seq![47u8] + name
}

/// The default installation path as bytes.
pub fn default_install_path() -> (r: Vec<u8>)
    ensures
        r@ == spec_default_install_path(),
{
    slice_to_vec("C:/Program Files (x86)/Steam/steamapps/common/Call of Duty".as_bytes())
}

/// The path of the marker executable below a candidate install root.
pub fn marker_path(root: &Vec<u8>) -> (r: Vec<u8>)
    ensures
        r@ == root@ + seq![47u8] + spec_marker_name(),
{
    let mut r = clone_bytes(root);
    r.push(47);
    let marker: Vec<u8> = slice_to_vec("cod.exe".as_bytes());
    let mut i: usize = 0;
    while i < marker.len()
        invariant
            0 <= i <= marker@.len(),
            r@ == root@ + seq![47u8] + marker@.take(i as int),
        decreases marker.len() - i,
    {
        proof {
            assert((root@ + seq![47u8] + marker@.take(i as int)).push(marker@[i as int]) =~~= root@
                + seq![47u8] + marker@.take(i + 1));
        }
        r.push(marker[i]);
        i += 1;
    }
    proof {
        assert(marker@.take(marker@.len() as int) =~~= marker@);
    }
    r
}

/// Accepts a candidate install root exactly when its marker file exists as
/// a regular file, which the caller has probed.
pub fn accept_install_root(candidate: &Vec<u8>, marker_is_file: bool) -> (r: Option<Vec<u8>>)
    ensures
        match r {
            Some(p) => marker_is_file && p@ == candidate@,
            None => !marker_is_file,
        },
{
    if marker_is_file {
        Some(clone_bytes(candidate))
    } else {
        None
    }
}

/// The default install root, accepted exactly when the caller found the
/// marker file there.
pub fn check_cod_default(marker_is_file: bool) -> (r: Option<Vec<u8>>)
    ensures
        match r {
            Some(p) => marker_is_file && p@ == spec_default_install_path(),
            None => !marker_is_file,
        },
{
    if marker_is_file {
        Some(default_install_path())
    } else {
        None
    }
}

/// True when the file name has the settings shape.
pub fn is_settings_file_name(name: &Vec<u8>) -> (r: bool)
    ensures
        r == is_settings_name(name@),
{
    let prefix: Vec<u8> = slice_to_vec("g.".as_bytes());
    let txt0: Vec<u8> = slice_to_vec(".txt0".as_bytes());
    let txt1: Vec<u8> = slice_to_vec(".txt1".as_bytes());
    starts_with(name, &prefix) && (ends_with(name, &txt0) || ends_with(name, &txt1))
}

/// One profile directory as enumerated by the caller: its name and the
/// names of the files directly inside it.
#[derive(Debug)]
pub struct ProfileListing {
    pub profile: Vec<u8>,
    pub file_names: Vec<Vec<u8>>,
}

impl View for ProfileListing {
    type V = (Seq<u8>, Seq<Seq<u8>>);

    open spec fn view(&self) -> (Seq<u8>, Seq<Seq<u8>>) {
        (self.profile@, self.file_names@.map_values(|n: Vec<u8>| n@))
    }
}

/// The view of a list of profile listings.
pub open spec fn listings_view(ps: Seq<ProfileListing>) -> Seq<(Seq<u8>, Seq<Seq<u8>>)> {
    ps.map_values(|p: ProfileListing| p@)
}

/// One discovered configuration file: its profile, its file name, and its
/// full path below the documents root.
#[derive(Debug)]
pub struct ProfileConfigFile {
    pub profile: Vec<u8>,
    pub file_name: Vec<u8>,
    pub path: Vec<u8>,
}

impl View for ProfileConfigFile {
    type V = (Seq<u8>, Seq<u8>, Seq<u8>);

    open spec fn view(&self) -> (Seq<u8>, Seq<u8>, Seq<u8>) {
        (self.profile@, self.file_name@, self.path@)
    }
}

/// The view of a list of discovered configuration files.
pub open spec fn config_files_view(fs: Seq<ProfileConfigFile>) -> Seq<(Seq<u8>, Seq<u8>, Seq<u8>)> {
    fs.map_values(|f: ProfileConfigFile| f@)
}

/// The settings files of one profile, in listing order.
pub open spec fn profile_matches(
    root: Seq<u8>,
    profile: Seq<u8>,
    names: Seq<Seq<u8>>,
) -> Seq<(Seq<u8>, Seq<u8>, Seq<u8>)>
    decreases names.len(),
{
    if names.len() == 0 {
        Seq::empty()
    } else {
        let rest = profile_matches(root, profile, names.drop_last());
        if is_settings_name(names.last()) {
            rest.push((profile, names.last(), spec_config_path(root, profile, names.last())))
        } else {
            rest
        }
    }
}

/// The settings files of all profiles, in enumeration order.
pub open spec fn matching_files(
    root: Seq<u8>,
    ps: Seq<(Seq<u8>, Seq<Seq<u8>>)>,
) -> Seq<(Seq<u8>, Seq<u8>, Seq<u8>)>
    decreases ps.len(),
{
    if ps.len() == 0 {
        Seq::empty()
    } else {
        matching_files(root, ps.drop_last()) + profile_matches(
            root,
            ps.last().0,
            ps.last().1,
        )
    }
}

/// Discovery failure: the documents root could not be resolved, or no
/// profile holds a settings file.
#[derive(Debug, PartialEq, Eq, Structural)]
pub enum NotFoundError {
    DocumentsDirMissing,
    NoSettingsFiles,
}

/// Builds the full path of one configuration file below the documents root.
fn build_config_path(root: &Vec<u8>, profile: &Vec<u8>, name: &Vec<u8>) -> (r: Vec<u8>)
    ensures
        r@ == spec_config_path(root@, profile@, name@),
{
    let mut r = clone_bytes(root);
    r.push(47);
    let players: Vec<u8> = slice_to_vec("Call of Duty/players".as_bytes());
    let mut parts: Vec<u8> = clone_bytes(&players);
    r.append(&mut parts);
    r.push(47);
    let mut p = clone_bytes(profile);
    r.append(&mut p);
    r.push(47);
    let mut n = clone_bytes(name);
    r.append(&mut n);
    proof {
        assert(r@ =~~= spec_config_path(root@, profile@, name@));
    }
    r
}

/// Selects every profile configuration file from the enumerated profile
/// directories: exactly the files whose name starts with `g.` and ends
/// with `.txt0` or `.txt1`, each under its profile, in enumeration order.
/// Fails when the documents root is unresolved or no file matches; an
/// empty match is never a success.
pub fn find_cod_settings(docs_root: &Option<Vec<u8>>, profiles: &Vec<ProfileListing>) -> (r:
    Result<Vec<ProfileConfigFile>, NotFoundError>)
    ensures
        match r {
            Ok(v) => {
                &&& docs_root is Some
                &&& config_files_view(v@) == matching_files(
                    docs_root->Some_0@,
                    listings_view(profiles@),
                )
                &&& v@.len() > 0
            },
            Err(e) => match e {
                NotFoundError::DocumentsDirMissing => docs_root is None,
                NotFoundError::NoSettingsFiles => docs_root is Some && matching_files(
                    docs_root->Some_0@,
                    listings_view(profiles@),
                ).len() == 0,
            },
        },
{
    let root = match docs_root {
        Some(root) => root,
        None => {
            return Err(NotFoundError::DocumentsDirMissing);
        },
    };
    let mut out: Vec<ProfileConfigFile> = Vec::new();
    let mut i: usize = 0;
    proof {
        assert(config_files_view(out@) =~~= matching_files(
            root@,
            listings_view(profiles@).take(0),
        ));
    }
    while i < profiles.len()
        invariant
            0 <= i <= profiles@.len(),
            config_files_view(out@) == matching_files(
                root@,
                listings_view(profiles@).take(i as int),
            ),
        decreases profiles@.len() - i,
    {
        let ghost lv = listings_view(profiles@);
        let p = &profiles[i];
        let mut j: usize = 0;
        proof {
            assert(p@.1.take(0) =~~= Seq::<Seq<u8>>::empty());
            assert(config_files_view(out@) + profile_matches(root@, p@.0, p@.1.take(0))
                =~~= config_files_view(out@));
        }
        while j < p.file_names.len()
            invariant
                0 <= j <= p.file_names@.len(),
                config_files_view(out@) == matching_files(root@, lv.take(i as int))
                    + profile_matches(root@, p@.0, p@.1.take(j as int)),
                i < profiles@.len(),
                p == profiles@[i as int],
                lv == listings_view(profiles@),
            decreases p.file_names@.len() - j,
        {
            let name = &p.file_names[j];
            proof {
                assert(p@.1.take(j + 1).drop_last() =~~= p@.1.take(j as int));
                assert(p@.1.take(j + 1).last() == p@.1[j as int]);
                assert(p@.1[j as int] == name@);
            }
            if is_settings_file_name(name) {
                let item = ProfileConfigFile {
                    profile: clone_bytes(&p.profile),
                    file_name: clone_bytes(name),
                    path: build_config_path(root, &p.profile, name),
                };
                let ghost before = out@;
                out.push(item);
                proof {
                    assert(config_files_view(out@) =~~= config_files_view(before).push(
                        (p@.0, name@, spec_config_path(root@, p@.0, name@)),
                    ));
                }
            }
            j += 1;
        }
        proof {
            assert(p@.1.take(p@.1.len() as int) =~~= p@.1);
            assert(lv.take(i + 1).drop_last() =~~= lv.take(i as int));
            assert(lv.take(i + 1).last() == lv[i as int]);
            assert(lv[i as int] == p@);
        }
        i += 1;
    }
    proof {
        assert(listings_view(profiles@).take(profiles@.len() as int) =~~= listings_view(
            profiles@,
        ));
    }
    if out.len() == 0 {
        Err(NotFoundError::NoSettingsFiles)
    } else {
        Ok(out)
    }
}

} // verus!
