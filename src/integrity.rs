//! The integrity record of a reconstructed file: the transmitter checksum
//! and the secondary digests.

use vstd::prelude::*;
use crate::checksum::{bytes_hex, crc32_ieee, fnv1a64, hex_bytes, hex_of, hex_text, le_bytes, le_bytes_of};
use crate::codec::{crc32, fnv64, md5_bytes, md5_digest, sha1_bytes, sha1_digest, sha256_bytes, sha256_digest};

verus! {

/// Digests of one reconstructed file, as the integrity report lists them.
#[derive(Clone, Debug)]
pub struct ReconstructedFile {
    pub qr_checksum: String,
    pub md5: String,
    pub sha1: String,
    pub sha256: String,
    pub crc32: String,
    pub size: u64,
    pub file_path: String,
}

/// The integrity report: when, where, and each file's record by key.
#[derive(Clone, Debug)]
pub struct FinalReport {
    pub scan_date: String,
    pub directory: String,
    /// Records by key, keys distinct (see `wf`).
    pub files: Vec<(String, ReconstructedFile)>,
}

/// The record of `data`, written at `file_path`: the metadata checksum where
/// there was one, else the 64-bit FNV-1a, in hexadecimal, of the data's
/// length as eight little-endian bytes followed by the data; the digests in
/// lowercase hexadecimal.
pub fn integrity_record(data: &[u8], qr_checksum: Option<String>, file_path: String) -> (r: ReconstructedFile)
    ensures
        r.qr_checksum@ == match qr_checksum {
            Some(k) => k@,
            None => hex_of(fnv1a64(le_bytes(data@.len() as u64) + data@) as nat),
        },
        r.md5@ == hex_bytes(md5_digest(data@)),
        r.sha1@ == hex_bytes(sha1_digest(data@)),
        r.sha256@ == hex_bytes(sha256_digest(data@)),
        r.crc32@ == hex_of(crc32_ieee(data@) as nat),
        r.size == data@.len(),
        r.file_path == file_path,
{
    let qr = match qr_checksum {
        Some(k) => k,
        None => {
            let mut framed = le_bytes_of(data.len() as u64);
            let mut i: usize = 0;
            let ghost prefix = framed@;
            while i < data.len()
                invariant
                    i <= data@.len(),
                    framed@ == prefix + data@.subrange(0, i as int),
                decreases data@.len() - i,
            {
                framed.push(data[i]);
                i = i + 1;
                assert(framed@ =~= prefix + data@.subrange(0, i as int));
            }
            assert(data@.subrange(0, data@.len() as int) =~= data@);
            hex_text(fnv64(framed.as_slice()))
        },
    };
    let md5 = md5_bytes(data);
    let sha1 = sha1_bytes(data);
    let sha256 = sha256_bytes(data);
    ReconstructedFile {
        qr_checksum: qr,
        md5: bytes_hex(md5.as_slice()),
        sha1: bytes_hex(sha1.as_slice()),
        sha256: bytes_hex(sha256.as_slice()),
        crc32: hex_text(crc32(data) as u64),
        size: data.len() as u64,
        file_path,
    }
}

/// Some record of `files` has key `k`.
pub open spec fn has_key(files: Seq<(String, ReconstructedFile)>, k: Seq<char>) -> bool {
    exists|i: int| 0 <= i < files.len() && #[trigger] files[i].0@ == k
}

impl FinalReport {
    /// No two files share a key.
    pub open spec fn wf(&self) -> bool {
        forall|i: int, j: int| 0 <= i < j < self.files@.len() ==> self.files@[i].0@ != self.files@[j].0@
    }

    /// A report with no file yet.
    pub fn new(scan_date: String, directory: String) -> (r: Self)
        ensures
            r.wf(),
            r.scan_date == scan_date,
            r.directory == directory,
            r.files@.len() == 0,
    {
        FinalReport { scan_date, directory, files: Vec::new() }
    }

    /// Records `file` under `key`, replacing the record that key had.
    pub fn insert(&mut self, key: String, file: ReconstructedFile)
        requires
            old(self).wf(),
        ensures
            final(self).wf(),
            final(self).scan_date == old(self).scan_date,
            final(self).directory == old(self).directory,
            exists|i: int| 0 <= i < final(self).files@.len() && #[trigger] final(self).files@[i].0@ == key@ && final(self).files@[i].1 == file,
            forall|k: Seq<char>|
                k != key@ ==> (#[trigger] has_key(final(self).files@, k) <==> has_key(old(self).files@, k)),
            forall|i: int, j: int|
                0 <= i < old(self).files@.len() && 0 <= j < final(self).files@.len() && #[trigger] old(self).files@[i].0@ == #[trigger] final(self).files@[j].0@
                    && old(self).files@[i].0@ != key@ ==> final(self).files@[j].1 == old(self).files@[i].1,
    {
        let ghost before = self.files@;
        let mut i: usize = 0;
        while i < self.files.len()
            invariant
                self.files@ == before,
                old(self).files@ == before,
                old(self).wf(),
                self.scan_date == old(self).scan_date,
                self.directory == old(self).directory,
                i <= before.len(),
                forall|j: int| 0 <= j < i ==> before[j].0@ != key@,
            decreases before.len() - i,
        {
            if self.files[i].0 == key {
                let (k, _) = self.files.remove(i);
                self.files.insert(i, (k, file));
                proof {
                    let after = self.files@;
                    assert(after =~= before.update(i as int, (after[i as int].0, file)));
                    assert(after[i as int].0@ == key@);
                    assert forall|a: int, b: int| 0 <= a < b < after.len() implies after[a].0@ != after[b].0@ by {
                        assert(after[a].0@ == before[a].0@);
                        assert(after[b].0@ == before[b].0@);
                    }
                    assert forall|k: Seq<char>| k != key@ implies (#[trigger] has_key(after, k) <==> has_key(before, k)) by {
                        if exists|j: int| 0 <= j < after.len() && #[trigger] after[j].0@ == k {
                            let j = choose|j: int| 0 <= j < after.len() && #[trigger] after[j].0@ == k;
                            assert(before[j].0@ == k);
                        }
                        if exists|j: int| 0 <= j < before.len() && #[trigger] before[j].0@ == k {
                            let j = choose|j: int| 0 <= j < before.len() && #[trigger] before[j].0@ == k;
                            assert(after[j].0@ == k);
                        }
                    }
                    assert forall|a: int, b: int|
                        0 <= a < before.len() && 0 <= b < after.len() && #[trigger] before[a].0@ == #[trigger] after[b].0@
                            && before[a].0@ != key@ implies after[b].1 == before[a].1 by {
                        assert(after[b].0@ == before[b].0@);
                        if a != b {
                            if a < b {
                                assert(before[a].0@ != before[b].0@);
                            } else {
                                assert(before[b].0@ != before[a].0@);
                            }
                        }
                    }
                }
                return;
            }
            i = i + 1;
        }
        let ghost kv = key@;
        self.files.push((key, file));
        proof {
            let after = self.files@;
            assert(after =~= before.push(after[before.len() as int]));
            assert(after[before.len() as int].0@ == kv);
            assert forall|a: int, b: int| 0 <= a < b < after.len() implies after[a].0@ != after[b].0@ by {
                assert(after[a] == before[a]);
                if b < before.len() {
                    assert(after[b] == before[b]);
                }
            }
            assert forall|k: Seq<char>| k != kv implies (#[trigger] has_key(after, k) <==> has_key(before, k)) by {
                if exists|j: int| 0 <= j < after.len() && #[trigger] after[j].0@ == k {
                    let j = choose|j: int| 0 <= j < after.len() && #[trigger] after[j].0@ == k;
                    assert(j < before.len());
                    assert(before[j].0@ == k);
                }
                if exists|j: int| 0 <= j < before.len() && #[trigger] before[j].0@ == k {
                    let j = choose|j: int| 0 <= j < before.len() && #[trigger] before[j].0@ == k;
                    assert(after[j].0@ == k);
                }
            }
            assert forall|a: int, b: int|
                0 <= a < before.len() && 0 <= b < after.len() && #[trigger] before[a].0@ == #[trigger] after[b].0@
                    && before[a].0@ != kv implies after[b].1 == before[a].1 by {
                if b < before.len() {
                    assert(after[b] == before[b]);
                    if a != b {
                        if a < b {
                            assert(before[a].0@ != before[b].0@);
                        } else {
                            assert(before[b].0@ != before[a].0@);
                        }
                    }
                }
            }
        }
    }
}

} // verus!
