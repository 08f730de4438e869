//! The trusted boundary to the store directory.
//!
//! [`SegmentDir`] stands for one store directory and the collection of
//! segment files inside it.  Every file operation of the engine goes through
//! the methods here, which rely on the `fs-err` crate (a `std::fs` wrapper
//! with richer error messages).  Two names describe what the directory
//! holds: [`seg_files`] maps each live segment id to the bytes of
//! `<id>.data`, and [`temp_files`] does the same for `<id>.data.temp`.
//!
//! The contracts assume what the store's `meta` discipline is there to
//! guarantee: exactly one store owns a directory at a time, so nothing else
//! changes these files between calls.

use crate::error::Error;
use crate::file::data_name;
use vstd::prelude::*;

use std::io::Read;
use std::io::Seek;
use std::io::Write;

verus! {

/// A handle on one store directory.  Construct exactly one per directory:
/// the contracts below speak of the directory's files, and a second handle
/// writing the same files would falsify them.
#[verifier::external_body]
pub struct SegmentDir {
    dir: std::path::PathBuf,
}

/// What each segment file holds: file id to the bytes of `<id>.data`.
pub uninterp spec fn seg_files(d: SegmentDir) -> Map<int, Seq<u8>>;

/// What each merge temp file holds: file id to the bytes of `<id>.data.temp`.
pub uninterp spec fn temp_files(d: SegmentDir) -> Map<int, Seq<u8>>;

/// What the directory's `meta` file is.
pub enum MetaFile {
    /// No `meta` entry exists.
    Absent,
    /// `meta` is a directory.
    IsDir,
    /// `meta` is a regular file with these bytes.
    Contents(Vec<u8>),
}

impl SegmentDir {
    /// Relies on `std::path::PathBuf::from` alone: holds the directory path;
    /// no file is touched.  Segment and temp file ids are the `u64` values
    /// their file names spell, so both views range over `u64` ids only.
    #[verifier::external_body]
    pub fn open_dir(dir: &str) -> (d: SegmentDir)
        ensures
            forall|id: int| #[trigger] seg_files(d).dom().contains(id) ==> 0 <= id <= u64::MAX,
            forall|id: int| #[trigger] temp_files(d).dom().contains(id) ==> 0 <= id <= u64::MAX,
    {
        SegmentDir { dir: std::path::PathBuf::from(dir) }
    }

    /// Relies on `fs_err::read_dir` and `DirEntry::file_name`: lists the
    /// directory, so every segment file's name is among the returned names.
    #[verifier::external_body]
    pub fn list_names(&self) -> (r: Result<Vec<Vec<u8>>, Error>)
        ensures
            r matches Ok(names) ==> forall|id: int|
                0 <= id <= u64::MAX && #[trigger] seg_files(*self).dom().contains(id)
                    ==> exists|i: int|
                    0 <= i < names@.len() && #[trigger] names@[i]@ == data_name(id as nat),
            r matches Err(e) ==> e is Io,
    {
        let entries = fs_err::read_dir(&self.dir).map_err(|e| Error::Io(e.to_string()))?;
        let mut names: Vec<Vec<u8>> = Vec::new();
        for entry in entries {
            let entry = entry.map_err(|e| Error::Io(e.to_string()))?;
            names.push(entry.file_name().to_string_lossy().into_owned().into_bytes());
        }
        Ok(names)
    }

    /// Relies on `fs_err::read`: returns exactly the bytes of `<id>.data`.
    #[verifier::external_body]
    pub fn read_all(&self, id: u64) -> (r: Result<Vec<u8>, Error>)
        ensures
            r matches Ok(v) ==> {
                &&& seg_files(*self).dom().contains(id as int)
                &&& v@ == seg_files(*self)[id as int]
            },
            r matches Err(e) ==> e is Io,
    {
        let path = self.dir.join(format!("{}.data", id));
        fs_err::read(&path).map_err(|e| Error::Io(e.to_string()))
    }

    /// Relies on `fs_err::File::open`, `Seek::seek` and `Read::read_exact`:
    /// when all succeed, `<id>.data` holds at least `offset + len` bytes and
    /// exactly the bytes of that range come back.  The range claim needs
    /// `len > 0`: a seek may land past the end of the file, and reading zero
    /// bytes there still succeeds.
    #[verifier::external_body]
    pub fn read_at(&self, id: u64, offset: u64, len: usize) -> (r: Result<Vec<u8>, Error>)
        ensures
            r matches Ok(v) ==> {
                &&& seg_files(*self).dom().contains(id as int)
                &&& v@.len() == len
                &&& len > 0 ==> offset + len <= seg_files(*self)[id as int].len() && v@
                    == seg_files(*self)[id as int].subrange(
                    offset as int,
                    offset as int + len as int,
                )
            },
            r matches Err(e) ==> e is Io,
    {
        let path = self.dir.join(format!("{}.data", id));
        let mut f = fs_err::File::open(&path).map_err(|e| Error::Io(e.to_string()))?;
        f.seek(std::io::SeekFrom::Start(offset)).map_err(|e| Error::Io(e.to_string()))?;
        let mut buf = vec![0u8; len];
        f.read_exact(&mut buf).map_err(|e| Error::Io(e.to_string()))?;
        Ok(buf)
    }

    /// Relies on `fs_err::OpenOptions`, `Seek::seek` to the end,
    /// `Write::write_all` and `Write::flush`: appends the bytes to
    /// `<id>.data` and returns the offset they start at — the segment's
    /// length before the call, which with the appended bytes still fits in
    /// `u64`, being what the next seek to the end would report.  A failed
    /// call may leave a prefix of the bytes appended, and touches nothing
    /// else.
    #[verifier::external_body]
    pub fn append(&mut self, id: u64, bytes: &Vec<u8>) -> (r: Result<u64, Error>)
        ensures
            r matches Ok(off) ==> {
                &&& seg_files(*old(self)).dom().contains(id as int)
                &&& off == seg_files(*old(self))[id as int].len()
                &&& off + bytes@.len() <= u64::MAX
                &&& seg_files(*final(self)) == seg_files(*old(self)).insert(
                    id as int,
                    seg_files(*old(self))[id as int] + bytes@,
                )
                &&& temp_files(*final(self)) == temp_files(*old(self))
            },
            r matches Err(e) ==> e is Io,
            r is Err ==> {
                &&& temp_files(*final(self)) == temp_files(*old(self))
                &&& (seg_files(*final(self)) == seg_files(*old(self)) || exists|n: int|
                    0 <= n <= bytes@.len() && seg_files(*final(self)) == seg_files(
                        *old(self),
                    ).insert(
                        id as int,
                        seg_files(*old(self))[id as int] + bytes@.subrange(0, n),
                    ))
            },
    {
        let path = self.dir.join(format!("{}.data", id));
        let mut f = fs_err::OpenOptions::new().write(true).open(&path).map_err(
            |e| Error::Io(e.to_string()),
        )?;
        let off = f.seek(std::io::SeekFrom::End(0)).map_err(|e| Error::Io(e.to_string()))?;
        f.write_all(bytes.as_slice()).map_err(|e| Error::Io(e.to_string()))?;
        f.flush().map_err(|e| Error::Io(e.to_string()))?;
        Ok(off)
    }

    /// Relies on `fs_err::File::create_new`: creates `<id>.data` exclusively
    /// and empty; fails if it already exists, having then changed nothing.
    #[verifier::external_body]
    pub fn create(&mut self, id: u64) -> (r: Result<(), Error>)
        ensures
            r is Ok ==> {
                &&& seg_files(*final(self)) == seg_files(*old(self)).insert(
                    id as int,
                    Seq::<u8>::empty(),
                )
                &&& temp_files(*final(self)) == temp_files(*old(self))
            },
            r matches Err(e) ==> e is Io,
            r is Err ==> {
                &&& seg_files(*final(self)) == seg_files(*old(self))
                &&& temp_files(*final(self)) == temp_files(*old(self))
            },
    {
        let path = self.dir.join(format!("{}.data", id));
        fs_err::File::create_new(&path).map_err(|e| Error::Io(e.to_string()))?;
        Ok(())
    }

    /// Relies on `fs_err::write`: creates or truncates `<id>.data.temp` so it
    /// holds exactly these bytes.  A failed call may leave a prefix there.
    #[verifier::external_body]
    pub fn write_temp(&mut self, id: u64, bytes: &Vec<u8>) -> (r: Result<(), Error>)
        ensures
            seg_files(*final(self)) == seg_files(*old(self)),
            r is Ok ==> temp_files(*final(self)) == temp_files(*old(self)).insert(
                id as int,
                bytes@,
            ),
            r matches Err(e) ==> e is Io,
            r is Err ==> (temp_files(*final(self)) == temp_files(*old(self)) || exists|n: int|
                0 <= n <= bytes@.len() && temp_files(*final(self)) == temp_files(
                    *old(self),
                ).insert(id as int, bytes@.subrange(0, n))),
    {
        let path = self.dir.join(format!("{}.data.temp", id));
        fs_err::write(&path, bytes.as_slice()).map_err(|e| Error::Io(e.to_string()))
    }

    /// Relies on `fs_err::rename`: atomically renames `<id>.data.temp` to
    /// `<id>.data`; on failure nothing has moved.
    #[verifier::external_body]
    pub fn promote_temp(&mut self, id: u64) -> (r: Result<(), Error>)
        ensures
            r is Ok ==> {
                &&& temp_files(*old(self)).dom().contains(id as int)
                &&& seg_files(*final(self)) == seg_files(*old(self)).insert(
                    id as int,
                    temp_files(*old(self))[id as int],
                )
                &&& temp_files(*final(self)) == temp_files(*old(self)).remove(id as int)
            },
            r matches Err(e) ==> e is Io,
            r is Err ==> {
                &&& seg_files(*final(self)) == seg_files(*old(self))
                &&& temp_files(*final(self)) == temp_files(*old(self))
            },
    {
        let from = self.dir.join(format!("{}.data.temp", id));
        let to = self.dir.join(format!("{}.data", id));
        fs_err::rename(&from, &to).map_err(|e| Error::Io(e.to_string()))
    }

    /// Relies on `fs_err::remove_file`: unlinks `<id>.data`; a failure —
    /// reported, not fatal — leaves everything as it was.
    #[verifier::external_body]
    pub fn delete(&mut self, id: u64) -> (r: bool)
        ensures
            temp_files(*final(self)) == temp_files(*old(self)),
            r ==> seg_files(*final(self)) == seg_files(*old(self)).remove(id as int),
            !r ==> seg_files(*final(self)) == seg_files(*old(self)),
    {
        let path = self.dir.join(format!("{}.data", id));
        fs_err::remove_file(&path).is_ok()
    }

    /// Relies on `fs_err::metadata` and `fs_err::read`: reports whether the
    /// directory's `meta` entry is absent, a directory, or a regular file,
    /// and in the last case hands its bytes back.
    #[verifier::external_body]
    pub fn read_meta(&self) -> (r: Result<MetaFile, Error>)
        ensures
            r matches Err(e) ==> e is Io,
    {
        let path = self.dir.join("meta");
        match fs_err::metadata(&path) {
            Err(_) => Ok(MetaFile::Absent),
            Ok(m) if m.is_dir() => Ok(MetaFile::IsDir),
            Ok(_) => {
                let bytes = fs_err::read(&path).map_err(|e| Error::Io(e.to_string()))?;
                Ok(MetaFile::Contents(bytes))
            },
        }
    }

    /// Relies on `fs_err::write`: stores the backend marker as the whole
    /// body of the `meta` file, touching no segment or temp file.
    #[verifier::external_body]
    pub fn write_meta(&mut self, bytes: &Vec<u8>) -> (r: Result<(), Error>)
        ensures
            seg_files(*final(self)) == seg_files(*old(self)),
            temp_files(*final(self)) == temp_files(*old(self)),
            r matches Err(e) ==> e is Io,
    {
        let path = self.dir.join("meta");
        fs_err::write(&path, bytes.as_slice()).map_err(|e| Error::Io(e.to_string()))
    }
}

} // verus!
