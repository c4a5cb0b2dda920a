use vstd::prelude::*;
use crate::bits::{BitReader, bit_at, bits_value};
use crate::codebook::{Codebook, CodebookFields, codebooks_read, fields_of, is_prefix_code, read_codebooks};
use crate::error::{HeaderFault, VorbisError};
use crate::floor::{Floor, floor_outcome, floors_read, read_floors};
use crate::ident::{IdentHeader, PACKET_TYPE_SETUP, check_signature, is_signature};
use crate::mapping::{
    ChannelCouple,
    Mapping,
    Mode,
    SubMap,
    mapping_view,
    mappings_read,
    mode_at,
    modes_scan,
    read_mappings,
    read_modes,
    read_time_domain_transforms,
    transforms_scan,
};
use crate::residue::{Residue, read_residues, residue_body_outcome, residues_read};

verus! {

/// The decode tables of a stream, as the setup header defines them.
#[derive(Clone, Debug)]
pub struct Setup {
    pub codebooks: Vec<Codebook>,
    pub floors: Vec<Floor>,
    pub residues: Vec<Residue>,
    pub mappings: Vec<Mapping>,
    pub modes: Vec<Mode>,
}

impl Setup {
    /// Every index between the tables names an existing entry.
    pub open spec fn wf(&self, ident: IdentHeader) -> bool {
        let n_books = self.codebooks@.len();
        &&& 1 <= n_books <= 256
        &&& 1 <= self.floors@.len() <= 64
        &&& 1 <= self.residues@.len() <= 64
        &&& 1 <= self.mappings@.len() <= 64
        &&& 1 <= self.modes@.len() <= 64
        &&& forall|i: int| 0 <= i < n_books ==> (#[trigger] self.codebooks@[i]).wf() && is_prefix_code(self.codebooks@[i].lengths@)
        &&& forall|i: int| 0 <= i < self.floors@.len() ==> (#[trigger] self.floors@[i]).wf(n_books)
        &&& forall|i: int| 0 <= i < self.residues@.len() ==> (#[trigger] self.residues@[i]).wf(n_books)
        &&& forall|i: int| 0 <= i < self.mappings@.len() ==> (#[trigger] self.mappings@[i]).wf(
            ident.n_channels as nat,
            self.floors@.len(),
            self.residues@.len(),
        )
        &&& forall|i: int| 0 <= i < self.modes@.len() ==> (#[trigger] self.modes@[i]).wf(self.mappings@.len())
    }
}

/// Copies `b[from..]` into a new vector.
pub fn tail_of(b: &[u8], from: usize) -> (r: Vec<u8>)
    requires
        from <= b@.len(),
    ensures
        r@ == b@.subrange(from as int, b@.len() as int),
{
    let mut v: Vec<u8> = Vec::new();
    let mut i: usize = from;
    while i < b.len()
        invariant
            from <= i <= b@.len(),
            v@ == b@.subrange(from as int, i as int),
        decreases b@.len() - i,
    {
        v.push(b[i]);
        i = i + 1;
        proof {
            assert(v@ =~= b@.subrange(from as int, i as int));
        }
    }
    v
}

/// What the setup header holds: the codebooks' fields, where each floor and
/// residue configuration starts (bits after the signature), the mappings'
/// couplings, multiplex and submaps, and the modes.
pub type SetupTables = (
    Seq<CodebookFields>,
    Seq<int>,
    Seq<int>,
    Seq<(Seq<ChannelCouple>, Seq<u8>, Seq<SubMap>)>,
    Seq<Mode>,
);

/// The tables from bit `p5` (the mode count) on, given the earlier ones.
pub open spec fn setup_modes_result(data: Seq<u8>, p5: int, cbs: Seq<CodebookFields>, fs: Seq<int>, rs: Seq<int>, ms: Seq<
    (Seq<ChannelCouple>, Seq<u8>, Seq<SubMap>),
>) -> Result<SetupTables, VorbisError> {
    let end = 8 * data.len();
    let nm = bits_value(data, p5, 6) + 1;
    let p6 = p5 + 6 + 41 * nm;
    if p5 + 6 > end {
        Err(VorbisError::IoShort)
    } else if modes_scan(data, p5 + 6, nm, ms.len(), 0) is Some {
        Err(modes_scan(data, p5 + 6, nm, ms.len(), 0)->Some_0)
    } else if p6 + 1 > end {
        Err(VorbisError::IoShort)
    } else if !bit_at(data, p6) {
        Err(VorbisError::InvalidHeader(HeaderFault::SetupFraming))
    } else {
        Ok((cbs, fs, rs, ms, Seq::new(nm, |k: int| mode_at(data, p5 + 6, k))))
    }
}

/// The tables from bit `p2` (the floor count) on, given the codebooks.
pub open spec fn setup_floors_result(data: Seq<u8>, p2: int, n_channels: nat, cbs: Seq<CodebookFields>) -> Result<SetupTables, VorbisError> {
    let end = 8 * data.len();
    if p2 + 6 > end {
        Err(VorbisError::IoShort)
    } else {
        match floors_read(data, p2 + 6, bits_value(data, p2, 6) + 1, cbs.len(), Seq::empty()) {
            Err(e) => Err(e),
            Ok((fs, p3)) => if p3 + 6 > end {
                Err(VorbisError::IoShort)
            } else {
                match residues_read(data, p3 + 6, bits_value(data, p3, 6) + 1, cbs.len(), Seq::empty()) {
                    Err(e) => Err(e),
                    Ok((rs, p4)) => if p4 + 6 > end {
                        Err(VorbisError::IoShort)
                    } else {
                        match mappings_read(data, p4 + 6, bits_value(data, p4, 6) + 1, n_channels, fs.len(), rs.len(), Seq::empty()) {
                            Err(e) => Err(e),
                            Ok((ms, p5)) => setup_modes_result(data, p5, cbs, fs, rs, ms),
                        }
                    },
                }
            },
        }
    }
}

/// What the setup header at the front of `b` holds, for a stream of
/// `n_channels` channels.
pub open spec fn setup_result(b: Seq<u8>, n_channels: nat) -> Result<SetupTables, VorbisError> {
    let data = b.subrange(7, b.len() as int);
    let end = 8 * data.len();
    if b.len() < 1 {
        Err(VorbisError::IoShort)
    } else if b[0] != PACKET_TYPE_SETUP {
        Err(VorbisError::InvalidHeader(HeaderFault::SetupPacketType))
    } else if b.len() < 7 {
        Err(VorbisError::IoShort)
    } else if !is_signature(b, 1) {
        Err(VorbisError::InvalidHeader(HeaderFault::SetupSignature))
    } else if 8 > end {
        Err(VorbisError::IoShort)
    } else {
        match codebooks_read(data, 8, bits_value(data, 0, 8) + 1, Seq::empty()) {
            Err(e) => Err(e),
            Ok((cbs, p1)) => if p1 + 6 > end {
                Err(VorbisError::IoShort)
            } else if transforms_scan(data, p1, bits_value(data, p1, 6) + 1, 0) is Some {
                Err(transforms_scan(data, p1, bits_value(data, p1, 6) + 1, 0)->Some_0)
            } else {
                setup_floors_result(data, p1 + 6 + 16 * (bits_value(data, p1, 6) + 1), n_channels, cbs)
            },
        }
    }
}

/// A setup read from `b` agrees with `setup_result`: the error, or tables
/// holding exactly what the header defines.
pub open spec fn setup_outcome(b: Seq<u8>, n_channels: nat, r: Result<Setup, VorbisError>) -> bool {
    let spec = setup_result(b, n_channels);
    let data = b.subrange(7, b.len() as int);
    &&& (r is Ok <==> spec is Ok)
    &&& r is Err ==> r->Err_0 == spec->Err_0
    &&& r is Ok ==> {
        let t = r->Ok_0;
        let (cbs, fs, rs, ms, mds) = spec->Ok_0;
        &&& t.codebooks@.map_values(|c: Codebook| fields_of(c)) == cbs
        &&& t.floors@.len() == fs.len()
        &&& forall|j: int| 0 <= j < fs.len() ==> floor_outcome(data, fs[j], cbs.len(), Ok::<Floor, VorbisError>(#[trigger] t.floors@[j]))
        &&& t.residues@.len() == rs.len()
        &&& forall|j: int| 0 <= j < rs.len() ==> residue_body_outcome(
            data,
            rs[j] + 16,
            bits_value(data, rs[j], 16) as u16,
            cbs.len(),
            Ok::<Residue, VorbisError>(#[trigger] t.residues@[j]),
        )
        &&& t.mappings@.map_values(|m: Mapping| mapping_view(m)) == ms
        &&& t.modes@ == mds
    }
}

/// Reads the setup header at the front of `b` for a stream described by
/// `ident`.
pub fn read_setup(b: &[u8], ident: &IdentHeader) -> (r: Result<Setup, VorbisError>)
    requires
        ident.wf(),
        8 * b@.len() <= usize::MAX,
    ensures
        b@.len() < 1 ==> r == Err::<Setup, VorbisError>(VorbisError::IoShort),
        b@.len() >= 1 && b@[0] != PACKET_TYPE_SETUP ==> r == Err::<Setup, VorbisError>(
            VorbisError::InvalidHeader(HeaderFault::SetupPacketType)),
        b@.len() >= 1 && b@[0] == PACKET_TYPE_SETUP && b@.len() < 7 ==> r == Err::<Setup, VorbisError>(VorbisError::IoShort),
        b@.len() >= 7 && b@[0] == PACKET_TYPE_SETUP && !is_signature(b@, 1) ==> r == Err::<Setup, VorbisError>(
            VorbisError::InvalidHeader(HeaderFault::SetupSignature)),
        r is Ok ==> r->Ok_0.wf(*ident),
        setup_outcome(b@, ident.n_channels as nat, r),
{
    if b.len() < 1 {
        return Err(VorbisError::IoShort);
    }
    if b[0] != PACKET_TYPE_SETUP {
        return Err(VorbisError::InvalidHeader(HeaderFault::SetupPacketType));
    }
    if b.len() < 7 {
        return Err(VorbisError::IoShort);
    }
    if !check_signature(b, 1) {
        return Err(VorbisError::InvalidHeader(HeaderFault::SetupSignature));
    }
    let mut bs = BitReader::new(tail_of(b, 7));
    let codebooks = match read_codebooks(&mut bs) {
        Ok(c) => c,
        Err(e) => return Err(e),
    };
    match read_time_domain_transforms(&mut bs) {
        Ok(()) => {},
        Err(e) => return Err(e),
    }
    let n_books = codebooks.len() as u16;
    let floors = match read_floors(&mut bs, n_books) {
        Ok(f) => f,
        Err(e) => return Err(e),
    };
    let residues = match read_residues(&mut bs, n_books) {
        Ok(r) => r,
        Err(e) => return Err(e),
    };
    let mappings = match read_mappings(&mut bs, ident.n_channels, floors.len() as u8, residues.len() as u8) {
        Ok(m) => m,
        Err(e) => return Err(e),
    };
    let modes = match read_modes(&mut bs, mappings.len() as u8) {
        Ok(m) => m,
        Err(e) => return Err(e),
    };
    let framing = match bs.read_bit() {
        Ok(f) => f,
        Err(e) => return Err(e),
    };
    if !framing {
        return Err(VorbisError::InvalidHeader(HeaderFault::SetupFraming));
    }
    Ok(Setup { codebooks, floors, residues, mappings, modes })
}

} // verus!
