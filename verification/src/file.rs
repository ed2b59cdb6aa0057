//! Files: reading a file from its first byte to its last.

use vstd::prelude::*;
use crate::base::{read_sector, BasicOperation};
use crate::bpb::BIOSParameterBlock;
use crate::directory_item::{name_part, spec_cluster, spec_length};
use crate::error::{Error, FileError};
use crate::fat::{chain_image, lemma_chain_finite, spec_chain, FAT};

verus! {

/// A file of a volume: where its content starts, how long it is, and what
/// its entry says of it.
#[derive(Debug, Clone, Copy)]
pub struct File {
    pub bpb: BIOSParameterBlock,
    /// First cluster of the directory that holds the file's entry.
    pub dir_cluster: u32,
    /// Byte at which the file's entry lies in that directory.
    pub offset: u64,
    pub file_name: [u8; 8],
    pub extension_name: [u8; 3],
    pub create_ms: u8,
    pub create_time: [u8; 2],
    pub create_date: [u8; 2],
    pub visit_date: [u8; 2],
    pub edit_time: [u8; 2],
    pub edit_date: [u8; 2],
    pub file_cluster: u32,
    pub length: u32,
}

impl File {
    /// Whether the fields are those of the entry `e`.
    pub open spec fn stored_in(&self, e: Seq<u8>) -> bool {
        &&& self.file_name@ == name_part(e, 0, 8)
        &&& self.extension_name@ == name_part(e, 8, 3)
        &&& self.create_ms == e[0x0D]
        &&& self.create_time@ == seq![e[0x0F], e[0x0E]]
        &&& self.create_date@ == seq![e[0x11], e[0x10]]
        &&& self.visit_date@ == seq![e[0x13], e[0x12]]
        &&& self.edit_time@ == seq![e[0x17], e[0x16]]
        &&& self.edit_date@ == seq![e[0x19], e[0x18]]
        &&& self.file_cluster == spec_cluster(e)
        &&& self.length == spec_length(e)
    }

    /// What the clusters of the file hold on the medium `disk`.
    pub open spec fn clusters(&self, disk: Seq<u8>) -> Seq<u8> {
        chain_image(disk, self.bpb, self.file_cluster)
    }

    /// Bytes of the file that can be read: its length, or what its clusters
    /// hold if that is less.
    pub open spec fn readable(&self, disk: Seq<u8>) -> int {
        if self.length <= self.clusters(disk).len() {
            self.length as int
        } else {
            self.clusters(disk).len() as int
        }
    }

    /// Reads the whole file into the front of `buf` and gives the number of
    /// bytes read: the file's length, unless its chain of clusters ends
    /// before that. The rest of `buf` stays as it was.
    ///
    /// A cluster that the file fills is read in one transfer, straight into
    /// `buf`; the last cluster of a file that ends inside it is read sector by
    /// sector, as far as the file goes. A file of length zero is read without
    /// a look at the device.
    pub fn read<D: BasicOperation>(&self, dev: &D, buf: &mut [u8]) -> (r: Result<
        usize,
        Error<D::Error>,
    >)
        ensures
            final(buf)@.len() == old(buf)@.len(),
            self.length == 0 ==> r is Ok,
            match r {
                Ok(n) => {
                    &&& self.length <= old(buf)@.len()
                    &&& n == self.readable(dev@)
                    &&& final(buf)@.subrange(0, n as int) == self.clusters(dev@).subrange(
                        0,
                        n as int,
                    )
                    &&& final(buf)@.subrange(n as int, old(buf)@.len() as int) == old(buf)@.subrange(
                        n as int,
                        old(buf)@.len() as int,
                    )
                },
                Err(Error::File(FileError::BufTooSmall)) => old(buf)@.len() < self.length
                    && final(buf)@ == old(buf)@,
                Err(Error::Io(_)) => {
                    &&& 0 < self.length <= old(buf)@.len()
                    &&& final(buf)@.subrange(self.length as int, old(buf)@.len() as int) == old(
                        buf,
                    )@.subrange(self.length as int, old(buf)@.len() as int)
                },
                Err(_) => false,
            },
    {
        let length: usize = self.length as usize;
        let size: usize = buf.len();
        if size < length {
            return Err(Error::File(FileError::BufTooSmall));
        }
        let per: usize = self.bpb.sector_per_cluster_usize();
        let cluster_size: usize = self.bpb.cluster_size();
        let ghost content = self.clusters(dev@);
        let ghost chain = spec_chain(dev@, self.bpb, self.file_cluster);
        assert(buf@.subrange(0, 0) =~= content.subrange(0, 0));
        if per == 0 {
            assert(self.bpb.spec_cluster_size() == 0);
            assert(content.len() == 0) by (nonlinear_arith)
                requires
                    content.len() == chain.len() * self.bpb.spec_cluster_size(),
                    self.bpb.spec_cluster_size() == 0,
            ;
            return Ok(0);
        }
        let mut walk: FAT = FAT::new(&self.bpb, self.file_cluster);
        let mut done: usize = 0;
        let ghost mut n: int = 0;
        proof {
            assert(chain.skip(0) =~= chain);
            lemma_chain_finite(dev@, self.bpb, self.file_cluster);
        }
        while done < length
            invariant
                content == self.clusters(dev@),
                chain == spec_chain(dev@, self.bpb, self.file_cluster),
                chain.len() <= 0x0FFF_FFF7,
                0 < per == self.bpb.sector_per_cluster,
                cluster_size == per * 512,
                length == self.length,
                size == buf@.len() == old(buf)@.len(),
                walk.bpb == self.bpb,
                0 <= n <= chain.len(),
                walk.remaining(dev@) == chain.skip(n),
                done <= length <= size,
                done <= n * cluster_size <= content.len(),
                done < length ==> done == n * cluster_size,
                buf@.subrange(0, done as int) == content.subrange(0, done as int),
                buf@.subrange(done as int, size as int) == old(buf)@.subrange(
                    done as int,
                    size as int,
                ),
            decreases length - done,
        {
            let ghost entered = buf@;
            let cluster: u32 = match walk.next_cluster(dev) {
                Ok(Some(cluster)) => cluster,
                Ok(None) => {
                    assert(n == chain.len());
                    return Ok(done);
                },
                Err(e) => {
                    proof {
                        lemma_rest_kept(buf@, old(buf)@, done as int, length as int);
                    }
                    return Err(e);
                },
            };
            let base: u64 = self.bpb.offset(cluster);
            proof {
                assert(chain.skip(n)[0] == chain[n]);
                assert(chain.skip(n).drop_first() =~= chain.skip(n + 1));
                lemma_cluster_position(chain.len() as int, per as int, n);
                self.bpb.lemma_offset_bounds(cluster as int);
            }
            if length - done >= cluster_size {
                let (_head, rest) = buf.split_at_mut(done);
                let (middle, _tail) = rest.split_at_mut(cluster_size);
                match dev.read(middle, base, per) {
                    Ok(()) => {},
                    Err(e) => {
                        proof {
                            assert(buf@.subrange(length as int, size as int) =~= entered.subrange(
                                length as int,
                                size as int,
                            ));
                            lemma_rest_kept(entered, old(buf)@, done as int, length as int);
                        }
                        return Err(Error::Io(e));
                    },
                }
                proof {
                    let now = done + cluster_size;
                    assert forall|i: int| 0 <= i < now implies buf@[i] == content[i] by {
                        if i < done {
                            assert(entered.subrange(0, done as int)[i] == content.subrange(
                                0,
                                done as int,
                            )[i]);
                        } else {
                            lemma_image_cluster(dev@, self.bpb, self.file_cluster, n, i - done);
                        }
                    }
                    assert(buf@.subrange(0, now) =~= content.subrange(0, now));
                    assert forall|i: int| now <= i < size implies buf@[i] == old(buf)@[i] by {
                        assert(entered.subrange(done as int, size as int)[i - done] == old(
                            buf,
                        )@.subrange(done as int, size as int)[i - done]);
                    }
                    assert(buf@.subrange(now, size as int) =~= old(buf)@.subrange(
                        now,
                        size as int,
                    ));
                }
                done = done + cluster_size;
            } else {
                let ghost from = done as int;
                let mut sector_no: usize = 0;
                while done < length
                    invariant
                        content == self.clusters(dev@),
                        chain == spec_chain(dev@, self.bpb, self.file_cluster),
                        0 < per == self.bpb.sector_per_cluster,
                        cluster_size == per * 512,
                        length == self.length,
                        0 <= n < chain.len(),
                        cluster == chain[n],
                        base == self.bpb.spec_offset(cluster as int),
                        base % 512 == 0,
                        base < 0x4_0000_0000_0000,
                        from == n * cluster_size,
                        from + cluster_size <= content.len(),
                        length - from < cluster_size,
                        from <= done <= length <= size == buf@.len() == old(buf)@.len(),
                        done < length ==> done == from + 512 * sector_no,
                        buf@.subrange(0, done as int) == content.subrange(0, done as int),
                        buf@.subrange(done as int, size as int) == old(buf)@.subrange(
                            done as int,
                            size as int,
                        ),
                    decreases length - done,
                {
                    let sector = match read_sector(dev, base + (sector_no as u64) * 512) {
                        Ok(sector) => sector,
                        Err(e) => {
                            proof {
                                lemma_rest_kept(buf@, old(buf)@, done as int, length as int);
                            }
                            return Err(Error::Io(e));
                        },
                    };
                    let take: usize = if length - done < 512 {
                        length - done
                    } else {
                        512
                    };
                    let ghost before = buf@;
                    let mut k: usize = 0;
                    while k < take
                        invariant
                            k <= take <= 512,
                            done + take <= length <= size == buf@.len(),
                            before.len() == size,
                            forall|i: int| 0 <= i < done ==> buf@[i] == before[i],
                            forall|i: int| done <= i < done + k ==> buf@[i] == sector@[i - done],
                            forall|i: int| done + k <= i < size ==> buf@[i] == before[i],
                        decreases take - k,
                    {
                        buf[done + k] = sector[k];
                        k += 1;
                    }
                    proof {
                        let now = done + take;
                        assert forall|i: int| 0 <= i < now implies buf@[i] == content[i] by {
                            if i < done {
                                assert(before.subrange(0, done as int)[i] == content.subrange(
                                    0,
                                    done as int,
                                )[i]);
                            } else {
                                lemma_image_cluster(
                                    dev@,
                                    self.bpb,
                                    self.file_cluster,
                                    n,
                                    i - from,
                                );
                            }
                        }
                        assert(buf@.subrange(0, now) =~= content.subrange(0, now));
                        assert forall|i: int| now <= i < size implies buf@[i] == old(buf)@[i] by {
                            assert(before.subrange(done as int, size as int)[i - done] == old(
                                buf,
                            )@.subrange(done as int, size as int)[i - done]);
                        }
                        assert(buf@.subrange(now, size as int) =~= old(buf)@.subrange(
                            now,
                            size as int,
                        ));
                    }
                    done = done + take;
                    sector_no = sector_no + 1;
                }
            }
            proof {
                n = n + 1;
                assert(n * cluster_size == (n - 1) * cluster_size + cluster_size)
                    by (nonlinear_arith);
            }
        }
        Ok(done)
    }
}

/// What lies behind the file's length in the buffer is what lies there in
/// the buffer as it came, where that holds of what lies behind `done`.
proof fn lemma_rest_kept(now: Seq<u8>, first: Seq<u8>, done: int, length: int)
    requires
        0 <= done <= length <= now.len() == first.len(),
        now.subrange(done, now.len() as int) == first.subrange(done, first.len() as int),
    ensures
        now.subrange(length, now.len() as int) == first.subrange(length, first.len() as int),
{
    let size = now.len() as int;
    assert(now.subrange(length, size) =~= now.subrange(done, size).subrange(
        length - done,
        size - done,
    ));
    assert(first.subrange(length, size) =~= first.subrange(done, size).subrange(
        length - done,
        size - done,
    ));
}

/// Cluster `n` of a chain of `clusters` clusters lies within the chain's
/// content.
proof fn lemma_cluster_position(clusters: int, per: int, n: int)
    requires
        0 <= n < clusters,
        0 < per,
    ensures
        0 <= n * (per * 512),
        n * (per * 512) + per * 512 <= clusters * (per * 512),
        (n + 1) * (per * 512) == n * (per * 512) + per * 512,
{
    assert(0 <= n * (per * 512)) by (nonlinear_arith)
        requires
            0 <= n,
            0 < per,
    ;
    assert(n * (per * 512) + per * 512 <= clusters * (per * 512)) by (nonlinear_arith)
        requires
            0 <= n < clusters,
            0 < per,
    ;
    assert((n + 1) * (per * 512) == n * (per * 512) + per * 512) by (nonlinear_arith);
}

/// Byte `b` of cluster `n` of a chain's content is byte `b` of that cluster
/// on the medium.
pub proof fn lemma_image_cluster(
    disk: Seq<u8>,
    bpb: BIOSParameterBlock,
    start: u32,
    n: int,
    b: int,
)
    requires
        0 <= n < spec_chain(disk, bpb, start).len(),
        0 <= b < bpb.spec_cluster_size(),
    ensures
        n * bpb.spec_cluster_size() + b < chain_image(disk, bpb, start).len(),
        chain_image(disk, bpb, start)[n * bpb.spec_cluster_size() + b] == disk[bpb.spec_offset(
            spec_chain(disk, bpb, start)[n] as int,
        ) + b],
{
    let per = bpb.sector_per_cluster as int;
    let clusters = spec_chain(disk, bpb, start).len() as int;
    let k = n * (per * 512) + b;
    let j = n * per + b / 512;
    lemma_cluster_position(clusters, per, n);
    assert(n * (per * 512) == (n * per) * 512) by (nonlinear_arith);
    assert(k == j * 512 + b % 512);
    assert(k / 512 == j);
    assert(k % 512 == b % 512);
    assert(b / 512 < per);
    vstd::arithmetic::div_mod::lemma_fundamental_div_mod_converse(j, per, n, b / 512);
}

} // verus!
