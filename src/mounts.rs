//! The pre-flight check: no configured device may be the source of a mounted
//! filesystem.
use crate::disks::ScanError;
use vstd::prelude::*;
use vstd::utf8::encode_utf8;

verus! {

/// A byte that ends the source field of a mount table line.
pub open spec fn ends_field(b: u8) -> bool {
    b == 32 || b == 9 || b == 10
}

/// `dev` is the source field of the mount table line that starts at `p`:
/// the line begins with it, and a space, a tab, the end of the line or the
/// end of the table follows.
pub open spec fn source_at(table: Seq<u8>, dev: Seq<u8>, p: int) -> bool {
    &&& 0 <= p
    &&& p + dev.len() <= table.len()
    &&& (p == 0 || table[p - 1] == 10)
    &&& table.subrange(p, p + dev.len()) == dev
    &&& (p + dev.len() == table.len() || ends_field(table[p + dev.len()]))
}

/// `dev` is a non-empty path that the mount table lists as a mount source.
pub open spec fn is_mount_source(table: Seq<u8>, dev: Seq<u8>) -> bool {
    dev.len() > 0 && exists|p: int| source_at(table, dev, p)
}

/// Whether `dev` occurs in `table` at `p`.
fn occurs_at(table: &[u8], dev: &[u8], p: usize) -> (r: bool)
    requires
        p <= table@.len(),
    ensures
        r == (p + dev@.len() <= table@.len() && table@.subrange(p as int, p + dev@.len())
            == dev@),
{
    if dev.len() > table.len() - p {
        return false;
    }
    let tl = table.len();
    let mut i: usize = 0;
    while i < dev.len()
        invariant
            tl == table@.len(),
            i <= dev@.len(),
            p <= table@.len(),
            p + dev@.len() <= table@.len(),
            forall|j: int| 0 <= j < i ==> table@[p + j] == dev@[j],
        decreases dev@.len() - i,
    {
        if table[p + i] != dev[i] {
            assert(table@.subrange(p as int, p + dev@.len())[i as int] != dev@[i as int]);
            return false;
        }
        i = i + 1;
    }
    assert(table@.subrange(p as int, p + dev@.len()) =~= dev@);
    true
}

/// Whether the mount table `table` lists `dev` as the source of a mounted
/// filesystem.
pub fn is_mounted(table: &[u8], dev: &[u8]) -> (r: bool)
    ensures
        r == is_mount_source(table@, dev@),
{
    if dev.len() == 0 {
        return false;
    }
    let mut p: usize = 0;
    while p < table.len()
        invariant
            p <= table@.len(),
            dev@.len() > 0,
            forall|q: int| 0 <= q < p ==> !source_at(table@, dev@, q),
        decreases table@.len() - p,
    {
        if p == 0 || table[p - 1] == 10 {
            if occurs_at(table, dev, p) {
                let e = p + dev.len();
                if e == table.len() || table[e] == 32 || table[e] == 9 || table[e] == 10 {
                    assert(source_at(table@, dev@, p as int));
                    return true;
                }
            }
        }
        p = p + 1;
    }
    assert forall|q: int| !source_at(table@, dev@, q) by {
        if 0 <= q && q < p {
        }
    }
    false
}

/// Checks every configured device against the mount table. The first one
/// that the table lists as a mount source stops the check with its index.
pub fn check_mounts(table: &str, devices: &Vec<String>) -> (r: Result<(), ScanError>)
    ensures
        r is Ok <==> forall|i: int|
            0 <= i < devices@.len() ==> !is_mount_source(
                encode_utf8(table@),
                encode_utf8(#[trigger] devices@[i]@),
            ),
        r is Err ==> exists|k: usize|
            r == Err::<(), ScanError>(ScanError::MountConflict { index: k }) && k
                < devices@.len() && is_mount_source(encode_utf8(table@), encode_utf8(devices@[k as int]@))
                && forall|i: int|
                0 <= i < k ==> !is_mount_source(
                    encode_utf8(table@),
                    encode_utf8(#[trigger] devices@[i]@),
                ),
{
    let t = table.as_bytes();
    let mut i: usize = 0;
    while i < devices.len()
        invariant
            i <= devices@.len(),
            t@ == encode_utf8(table@),
            forall|j: int|
                0 <= j < i ==> !is_mount_source(t@, encode_utf8(#[trigger] devices@[j]@)),
        decreases devices@.len() - i,
    {
        let d = devices[i].as_str().as_bytes();
        if is_mounted(t, d) {
            return Err(ScanError::MountConflict { index: i });
        }
        i = i + 1;
    }
    Ok(())
}

} // verus!
