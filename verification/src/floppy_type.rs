//! The registry of known floppy geometries, queried by exact total size.

use vstd::prelude::*;

verus! {

/// One floppy geometry: sides, tracks per side, sectors per track and
/// sector size, with the total capacity those multiply out to.
#[derive(Clone, Copy, Debug)]
pub struct FloppyType {
    /// Display label.
    pub name: &'static str,
    /// Sides (1 or 2).
    pub sides: u64,
    /// Tracks per side.
    pub tracks: u64,
    /// Sectors per track.
    pub sectors: u64,
    /// Sector size in bytes.
    pub sector_size: u64,
    /// Total size in bytes.
    pub total_size: u64,
}

impl FloppyType {
    /// A geometry is well formed when every dimension is positive and the
    /// total size is exactly the product of the four dimensions.
    pub open spec fn wf(self) -> bool {
        &&& self.sides >= 1
        &&& self.tracks >= 1
        &&& self.sectors >= 1
        &&& self.sector_size >= 1
        &&& self.total_size == self.sides * self.tracks * self.sectors * self.sector_size
    }

    /// Builds a geometry with 512-byte sectors.
    pub fn new(name: &'static str, sides: u64, tracks: u64, sectors: u64) -> (r: FloppyType)
        requires
            1 <= sides,
            1 <= tracks,
            1 <= sectors,
            sides * tracks * sectors * 512 <= u64::MAX,
        ensures
            r == (FloppyType {
                name,
                sides,
                tracks,
                sectors,
                sector_size: 512,
                total_size: (sides * tracks * sectors * 512) as u64,
            }),
            r.wf(),
    {
        proof {
            assert(sides * tracks <= sides * tracks * sectors * 512 && sides * tracks * sectors
                <= sides * tracks * sectors * 512) by (nonlinear_arith)
                requires
                    1 <= sides,
                    1 <= tracks,
                    1 <= sectors,
            ;
        }
        let a = sides * tracks;
        let b = a * sectors;
        let total = b * 512;
        FloppyType { name, sides, tracks, sectors, sector_size: 512, total_size: total }
    }

    /// The fixed catalogue of known geometries.
    pub fn types() -> (r: Vec<FloppyType>)
        ensures
            r@ == spec_floppy_types(),
    {
        let mut r: Vec<FloppyType> = Vec::new();
        r.push(FloppyType::new("5¼\" 160K", 1, 40, 8));
        r.push(FloppyType::new("5¼\" 320K", 2, 40, 8));
        r.push(FloppyType::new("5¼\" 180K", 1, 40, 9));
        r.push(FloppyType::new("5¼\" 360K", 2, 40, 9));
        r.push(FloppyType::new("5¼\" 1.2M", 2, 80, 15));
        r.push(FloppyType::new("3½\" 720K", 2, 80, 9));
        r.push(FloppyType::new("3½\" 1.44K", 2, 80, 18));
        r.push(FloppyType::new("3½\" 1.72K", 2, 80, 21));
        r.push(FloppyType::new("3½\" 2.88K", 2, 80, 36));
        proof {
            assert(r@ =~= spec_floppy_types());
        }
        r
    }

    /// Exact-match lookup of a geometry by total byte size.
    pub fn find_by_total_size(total_size: u64) -> (r: Option<FloppyType>)
        ensures
            r == registry_lookup(total_size),
            r is Some ==> (r->0.total_size == total_size && r->0.wf()),
            r is None ==> forall|i: int|
                0 <= i < spec_floppy_types().len() ==> spec_floppy_types()[i].total_size
                    != total_size,
    {
        let types = Self::types();
        let n = types.len();
        proof {
            assert(types@.skip(0) =~= types@);
        }
        let mut i: usize = 0;
        while i < n
            invariant
                0 <= i <= n,
                n == types@.len(),
                types@ == spec_floppy_types(),
                registry_lookup(total_size) == lookup_in(types@.skip(i as int), total_size),
                forall|k: int| 0 <= k < i ==> types@[k].total_size != total_size,
            decreases n - i,
        {
            if types[i].total_size == total_size {
                proof {
                    assert(types@.skip(i as int)[0] == types@[i as int]);
                    lemma_registry_wf();
                }
                return Some(types[i]);
            }
            proof {
                assert(types@.skip(i as int).drop_first() =~= types@.skip(i as int + 1));
                assert(types@.skip(i as int)[0] == types@[i as int]);
            }
            i += 1;
        }
        proof {
            assert(types@.skip(n as int) =~= Seq::<FloppyType>::empty());
        }
        None
    }
}

/// The registry's contents, in catalogue order.
pub open spec fn spec_floppy_types() -> Seq<FloppyType> {
    seq![
        FloppyType { name: "5¼\" 160K", sides: 1, tracks: 40, sectors: 8, sector_size: 512, total_size: 163840 },
        FloppyType { name: "5¼\" 320K", sides: 2, tracks: 40, sectors: 8, sector_size: 512, total_size: 327680 },
        FloppyType { name: "5¼\" 180K", sides: 1, tracks: 40, sectors: 9, sector_size: 512, total_size: 184320 },
        FloppyType { name: "5¼\" 360K", sides: 2, tracks: 40, sectors: 9, sector_size: 512, total_size: 368640 },
        FloppyType { name: "5¼\" 1.2M", sides: 2, tracks: 80, sectors: 15, sector_size: 512, total_size: 1228800 },
        FloppyType { name: "3½\" 720K", sides: 2, tracks: 80, sectors: 9, sector_size: 512, total_size: 737280 },
        FloppyType { name: "3½\" 1.44K", sides: 2, tracks: 80, sectors: 18, sector_size: 512, total_size: 1474560 },
        FloppyType { name: "3½\" 1.72K", sides: 2, tracks: 80, sectors: 21, sector_size: 512, total_size: 1720320 },
        FloppyType { name: "3½\" 2.88K", sides: 2, tracks: 80, sectors: 36, sector_size: 512, total_size: 2949120 },
    ]
}

/// First catalogue entry with the given total size, if any.
pub open spec fn lookup_in(s: Seq<FloppyType>, total_size: u64) -> Option<FloppyType>
    decreases s.len(),
{
    if s.len() == 0 {
        None
    } else if s[0].total_size == total_size {
        Some(s[0])
    } else {
        lookup_in(s.drop_first(), total_size)
    }
}

/// Registry lookup by exact total size.
pub open spec fn registry_lookup(total_size: u64) -> Option<FloppyType> {
    lookup_in(spec_floppy_types(), total_size)
}

/// Every catalogue entry is a well-formed geometry.
pub proof fn lemma_registry_wf()
    ensures
        forall|i: int| 0 <= i < spec_floppy_types().len() ==> (#[trigger] spec_floppy_types()[i]).wf(),
{
    assert forall|i: int| 0 <= i < spec_floppy_types().len() implies (#[trigger] spec_floppy_types()[i]).wf() by {
        if i == 0 { assert(spec_floppy_types()[0].wf()); }
        else if i == 1 { assert(spec_floppy_types()[1].wf()); }
        else if i == 2 { assert(spec_floppy_types()[2].wf()); }
        else if i == 3 { assert(spec_floppy_types()[3].wf()); }
        else if i == 4 { assert(spec_floppy_types()[4].wf()); }
        else if i == 5 { assert(spec_floppy_types()[5].wf()); }
        else if i == 6 { assert(spec_floppy_types()[6].wf()); }
        else if i == 7 { assert(spec_floppy_types()[7].wf()); }
        else { assert(spec_floppy_types()[8].wf()); }
    }
}

/// No two catalogue entries share a total size, so exact-size lookup is
/// unambiguous.
pub proof fn lemma_registry_sizes_unique(i: int, j: int)
    requires
        0 <= i < spec_floppy_types().len(),
        0 <= j < spec_floppy_types().len(),
        i != j,
    ensures
        spec_floppy_types()[i].total_size != spec_floppy_types()[j].total_size,
{
    let s = spec_floppy_types();
    assert(s[0].total_size == 163840);
    assert(s[1].total_size == 327680);
    assert(s[2].total_size == 184320);
    assert(s[3].total_size == 368640);
    assert(s[4].total_size == 1228800);
    assert(s[5].total_size == 737280);
    assert(s[6].total_size == 1474560);
    assert(s[7].total_size == 1720320);
    assert(s[8].total_size == 2949120);
}

} // verus!
