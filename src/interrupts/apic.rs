//! ACPI table search, MADT parsing and the local APIC registers.
use vstd::prelude::*;

use crate::memory::mapper::{spec_to_kernel, to_kernel_address};
use vstd::string::StringSliceAdditionalSpecFns;

verus! {

pub const MAX_LOCAL_APIC_COUNT: usize = 256;
pub const APIC_BASE_MSR: u32 = 0x1b;
pub const APIC_BASE_MSR_ENABLE: u64 = 0x800;
/// Bits 16..39 of the APIC base register: the local APIC's physical page.
pub const APIC_BASE_MASK: u64 = 0xffffff0000;
pub const SPURIOUS_INTERRUPT_VECTOR_REGISTER_OFFSET: u64 = 0xf0;
pub const ENABLE_APIC_FLAG: u32 = 0x100;
pub const SPURIOUS_INTERRUPT_VECTOR: u32 = 0xff;

/// Bytes of an ACPI table header.
pub const SDT_HEADER_SIZE: usize = 36;
/// Bytes of the MADT before its entries: the header, the local APIC address and flags.
pub const MADT_HEADER_SIZE: usize = 44;

/// The header that starts every ACPI table.
pub struct SDTHeader {
    pub signature: u32,
    pub length: u32,
    pub revision: u8,
    pub checksum: u8,
    pub oem_id: [u8; 6],
    pub oem_table_id: [u8; 8],
    pub oem_revision: u32,
    pub creator_id: u32,
    pub creator_revision: u32,
}

/// The Multiple APIC Description Table's fixed part.
pub struct MADT {
    pub header: SDTHeader,
    pub local_apic_address: u32,
    pub flags: u32,
}

/// The two bytes that start each MADT entry.
pub struct MADTEntryHeader {
    pub kind: u8,
    pub length: u8,
}

/// MADT entry of kind 0: one processor's local APIC.
pub struct LocalAPICEntry {
    pub header: MADTEntryHeader,
    pub processor_id: u8,
    pub id: u8,
    pub flags: u32,
}

/// MADT entry of kind 1: an I/O APIC.
pub struct IOAPICEntry {
    pub header: MADTEntryHeader,
    pub id: u8,
    pub reserved: u8,
    pub address: u32,
    pub gsi_base: u32,
}

/// MADT entry of kind 5: a 64-bit local APIC address.
pub struct LocalAPICAddressOverrideEntry {
    pub header: MADTEntryHeader,
    pub reserved: u16,
    pub address: u64,
}

/// The root system description pointer.
pub struct RSDP20 {
    pub signature: u64,
    pub checksum_1: u8,
    pub oem_id: [u8; 6],
    pub revision: u8,
    pub rsdt_address: u32,
    pub xsdt_address: u64,
    pub checksum_2: u8,
    pub reserved: [u8; 3],
}

/// The little-endian number in `bytes[at..at + width]`.
pub open spec fn le_at(bytes: Seq<u8>, at: int, width: nat) -> nat
    decreases width,
{
    if width == 0 {
        0
    } else {
        bytes[at] as nat + 256 * le_at(bytes, at + 1, (width - 1) as nat)
    }
}

proof fn lemma_le_bound(bytes: Seq<u8>, at: int, width: nat)
    ensures
        width == 4 ==> le_at(bytes, at, width) < 0x100000000,
        width == 8 ==> le_at(bytes, at, width) < 0x10000000000000000,
{
    reveal_with_fuel(le_at, 9);
}

fn read_u32(bytes: &[u8], at: usize) -> (r: u32)
    requires
        at + 4 <= bytes@.len(),
    ensures
        r == le_at(bytes@, at as int, 4),
{
    proof {
        reveal_with_fuel(le_at, 5);
        lemma_le_bound(bytes@, at as int, 4);
    }
    let n = bytes.len();
    let b0 = bytes[at] as u32;
    let b1 = bytes[at + 1] as u32;
    let b2 = bytes[at + 2] as u32;
    let b3 = bytes[at + 3] as u32;
    b0 + 256 * (b1 + 256 * (b2 + 256 * b3))
}

fn read_u64(bytes: &[u8], at: usize) -> (r: u64)
    requires
        at + 8 <= bytes@.len(),
    ensures
        r == le_at(bytes@, at as int, 8),
{
    proof {
        reveal_with_fuel(le_at, 9);
        lemma_le_bound(bytes@, at as int, 8);
    }
    let n = bytes.len();
    let low = read_u32(bytes, at) as u64;
    let high = read_u32(bytes, at + 4) as u64;
    proof {
        reveal_with_fuel(le_at, 5);
        lemma_le_split(bytes@, at as int);
    }
    low + 0x100000000 * high
}

proof fn lemma_le_split(bytes: Seq<u8>, at: int)
    ensures
        le_at(bytes, at, 8) == le_at(bytes, at, 4) + 0x100000000 * le_at(bytes, at + 4, 4),
{
    reveal_with_fuel(le_at, 9);
}

/// What parsing the MADT has gathered so far.
pub struct ApicModel {
    pub ids: Seq<u8>,
    pub local_apic_registers: u64,
    pub ioapic_registers: u64,
}

/// Why the MADT could not be read.
#[derive(Clone, Copy, Debug, PartialEq, Eq, Structural)]
pub enum MadtError {
    /// The table is shorter than its header, or than its length field says.
    TooShort,
    /// An entry is shorter than its kind needs or runs past the table's end.
    MalformedEntry,
    /// More local APICs than the per-CPU table holds.
    TooManyLocalApics,
}

/// The MADT entries in `bytes[position..end]` applied to `info`, in order:
/// kind 0 records a local APIC id, kind 1 the first I/O APIC, kind 5 replaces
/// the local APIC address; other kinds are skipped.
pub open spec fn parse_entries(bytes: Seq<u8>, position: int, end: int, info: ApicModel) -> Result<ApicModel, MadtError>
    decreases end - position,
{
    if position >= end {
        Ok(info)
    } else if position + 2 > end {
        Err(MadtError::MalformedEntry)
    } else {
        let kind = bytes[position];
        let length = bytes[position + 1] as int;
        if length < 2 || position + length > end {
            Err(MadtError::MalformedEntry)
        } else if kind == 0 {
            if length < 4 {
                Err(MadtError::MalformedEntry)
            } else if info.ids.len() >= MAX_LOCAL_APIC_COUNT {
                Err(MadtError::TooManyLocalApics)
            } else {
                parse_entries(bytes, position + length, end, ApicModel { ids: info.ids.push(bytes[position + 3]), ..info })
            }
        } else if kind == 1 {
            if length < 8 {
                Err(MadtError::MalformedEntry)
            } else if info.ioapic_registers == 0 {
                parse_entries(
                    bytes,
                    position + length,
                    end,
                    ApicModel { ioapic_registers: spec_to_kernel(le_at(bytes, position + 4, 4) as u64), ..info },
                )
            } else {
                parse_entries(bytes, position + length, end, info)
            }
        } else if kind == 5 {
            if length < 12 {
                Err(MadtError::MalformedEntry)
            } else {
                parse_entries(
                    bytes,
                    position + length,
                    end,
                    ApicModel { local_apic_registers: spec_to_kernel(le_at(bytes, position + 4, 8) as u64), ..info },
                )
            }
        } else {
            parse_entries(bytes, position + length, end, info)
        }
    }
}

/// The whole MADT in `bytes`: its length field bounds the entries, which start
/// after the fixed part; the local APIC address in the fixed part comes first.
pub open spec fn parse_madt(bytes: Seq<u8>) -> Result<ApicModel, MadtError> {
    if bytes.len() < MADT_HEADER_SIZE || le_at(bytes, 4, 4) < MADT_HEADER_SIZE || le_at(bytes, 4, 4)
        > bytes.len() {
        Err(MadtError::TooShort)
    } else {
        parse_entries(
            bytes,
            MADT_HEADER_SIZE as int,
            le_at(bytes, 4, 4) as int,
            ApicModel {
                ids: Seq::empty(),
                local_apic_registers: spec_to_kernel(le_at(bytes, 36, 4) as u64),
                ioapic_registers: 0,
            },
        )
    }
}

/// The interrupt controllers that the MADT describes. A register address of
/// zero means none was found.
pub struct APICInfo {
    pub local_apic_ids: Vec<u8>,
    pub local_apic_count: usize,
    pub local_apic_registers: u64,
    pub ioapic_registers: u64,
}

impl APICInfo {
    pub open spec fn model(&self) -> ApicModel {
        ApicModel {
            ids: self.local_apic_ids@,
            local_apic_registers: self.local_apic_registers,
            ioapic_registers: self.ioapic_registers,
        }
    }

    pub fn new() -> (r: APICInfo)
        ensures
            r.local_apic_ids@.len() == 0,
            r.local_apic_count == 0,
            r.local_apic_registers == 0,
            r.ioapic_registers == 0,
    {
        Self { local_apic_ids: Vec::new(), local_apic_count: 0, local_apic_registers: 0, ioapic_registers: 0 }
    }
}

impl MADT {
    /// Reads the MADT in `bytes` (its header included) into the local APIC
    /// ids and the direct-map addresses of the local and I/O APIC registers.
    pub fn process(bytes: &[u8]) -> (r: Result<APICInfo, MadtError>)
        ensures
            match parse_madt(bytes@) {
                Ok(m) => r is Ok && r->Ok_0.model() == m && r->Ok_0.local_apic_count == m.ids.len(),
                Err(e) => r == Err::<APICInfo, MadtError>(e),
            },
    {
        if bytes.len() < MADT_HEADER_SIZE {
            return Err(MadtError::TooShort);
        }
        let length = read_u32(bytes, 4) as usize;
        if length < MADT_HEADER_SIZE || length > bytes.len() {
            return Err(MadtError::TooShort);
        }
        let mut info = APICInfo::new();
        info.local_apic_registers = to_kernel_address(read_u32(bytes, 36) as u64);
        let mut position: usize = MADT_HEADER_SIZE;
        proof {
            assert(info.local_apic_ids@ =~= Seq::<u8>::empty());
            assert(info.model() == (ApicModel {
                ids: Seq::empty(),
                local_apic_registers: spec_to_kernel(le_at(bytes@, 36, 4) as u64),
                ioapic_registers: 0,
            }));
        }
        while position < length
            invariant
                length <= bytes@.len(),
                MADT_HEADER_SIZE <= position,
                info.local_apic_count == info.local_apic_ids@.len(),
                parse_madt(bytes@) == parse_entries(bytes@, position as int, length as int, info.model()),
            decreases length - position,
        {
            if length - position < 2 {
                return Err(MadtError::MalformedEntry);
            }
            let kind = bytes[position];
            let entry_length = bytes[position + 1] as usize;
            if entry_length < 2 || entry_length > length - position {
                return Err(MadtError::MalformedEntry);
            }
            if kind == 0 {
                if entry_length < 4 {
                    return Err(MadtError::MalformedEntry);
                }
                if info.local_apic_ids.len() >= MAX_LOCAL_APIC_COUNT {
                    return Err(MadtError::TooManyLocalApics);
                }
                info.local_apic_ids.push(bytes[position + 3]);
                info.local_apic_count = info.local_apic_count + 1;
            } else if kind == 1 {
                if entry_length < 8 {
                    return Err(MadtError::MalformedEntry);
                }
                if info.ioapic_registers == 0 {
                    info.ioapic_registers = to_kernel_address(read_u32(bytes, position + 4) as u64);
                }
            } else if kind == 5 {
                if entry_length < 12 {
                    return Err(MadtError::MalformedEntry);
                }
                info.local_apic_registers = to_kernel_address(read_u64(bytes, position + 4));
            }
            position = position + entry_length;
        }
        Ok(info)
    }
}

/// Why a table could not be found through the RSDP (whose revision must be 0 or 2).
#[derive(Clone, Copy, Debug, PartialEq, Eq, Structural)]
pub enum AcpiError {
    /// The root table is shorter than its header, or than its length field says.
    TooShort,
}

/// Whether the root table in `root` is shorter than its header or than its length field says.
pub open spec fn root_too_short(root: Seq<u8>) -> bool {
    root.len() < SDT_HEADER_SIZE || le_at(root, 4, 4) < SDT_HEADER_SIZE || le_at(root, 4, 4) > root.len()
}

/// Bytes per table pointer in the root table of an RSDP of `revision`.
pub open spec fn pointer_width(revision: u8) -> nat {
    if revision == 0 {
        4
    } else {
        8
    }
}

/// The table pointers that the root table in `root` lists.
pub open spec fn root_pointers(root: Seq<u8>, revision: u8) -> Seq<u64> {
    let width = pointer_width(revision);
    let count = (le_at(root, 4, 4) - SDT_HEADER_SIZE) / (width as int);
    Seq::new(count as nat, |i: int| le_at(root, SDT_HEADER_SIZE + width * i, width) as u64)
}

/// The little-endian number that the four ASCII bytes of `bytes` spell.
pub open spec fn signature_value(bytes: Seq<u8>) -> u32 {
    (bytes[0] as int + 256 * (bytes[1] as int + 256 * (bytes[2] as int + 256 * bytes[3] as int))) as u32
}

/// Position of the first of the first `n` signatures equal to `expected`; -1 if none.
pub open spec fn first_match(signatures: Seq<u32>, expected: u32, n: int) -> int
    decreases n,
{
    if n <= 0 {
        -1
    } else {
        let earlier = first_match(signatures, expected, n - 1);
        if earlier >= 0 {
            earlier
        } else if signatures[n - 1] == expected {
            n - 1
        } else {
            -1
        }
    }
}

proof fn lemma_first_match(signatures: Seq<u32>, expected: u32, n: int, m: int)
    requires
        0 <= n <= m,
        first_match(signatures, expected, n) >= 0,
    ensures
        first_match(signatures, expected, m) == first_match(signatures, expected, n),
    decreases m - n,
{
    if m > n {
        lemma_first_match(signatures, expected, n, m - 1);
    }
}

proof fn lemma_first_match_bound(signatures: Seq<u32>, expected: u32, n: int)
    requires
        0 <= n,
    ensures
        -1 <= first_match(signatures, expected, n) < n,
        first_match(signatures, expected, n) >= 0 ==> signatures[first_match(signatures, expected, n)] == expected,
    decreases n,
{
    if n > 0 {
        lemma_first_match_bound(signatures, expected, n - 1);
    }
}

impl RSDP20 {
    /// The direct-map address of the first table whose signature is
    /// `expected`; `signatures[i]` is the signature of the table at `tables[i]`.
    pub fn find_table_with_signature(tables: &[u64], signatures: &[u32], expected_signature: u32) -> (r: Option<u64>)
        requires
            signatures@.len() == tables@.len(),
        ensures
            ({
                let i = first_match(signatures@, expected_signature, signatures@.len() as int);
                &&& i < 0 ==> r.is_none()
                &&& i >= 0 ==> r == Some(spec_to_kernel(tables@[i]))
            }),
    {
        let mut index: usize = 0;
        while index < tables.len()
            invariant
                signatures@.len() == tables@.len(),
                index <= tables@.len(),
                first_match(signatures@, expected_signature, index as int) == -1,
            decreases tables@.len() - index,
        {
            if signatures[index] == expected_signature {
                proof {
                    assert(first_match(signatures@, expected_signature, index as int + 1) == index);
                    lemma_first_match(signatures@, expected_signature, index as int + 1, signatures@.len() as int);
                }
                return Some(to_kernel_address(tables[index]));
            }
            index = index + 1;
        }
        None
    }

    /// The four-byte signature `signature` as the number that a table header holds.
    pub fn signature_to_u32(signature: &str) -> (r: u32)
        requires
            signature.spec_bytes().len() == 4,
        ensures
            r == signature_value(signature.spec_bytes()),
    {
        let bytes = signature.as_bytes();
        let b0 = bytes[0] as u32;
        let b1 = bytes[1] as u32;
        let b2 = bytes[2] as u32;
        let b3 = bytes[3] as u32;
        b0 + 256 * (b1 + 256 * (b2 + 256 * b3))
    }

    /// The table pointers in the root table `root` (the RSDT for revision 0,
    /// the XSDT for revision 2), widened to 64 bits.
    pub fn table_addresses(&self, root: &[u8]) -> (r: Result<Vec<u64>, AcpiError>)
        requires
            self.revision == 0 || self.revision == 2,
        ensures
            root_too_short(root@) ==> r == Err::<Vec<u64>, AcpiError>(AcpiError::TooShort),
            r is Err <==> root_too_short(root@),
            r is Ok ==> r->Ok_0@ == root_pointers(root@, self.revision),
    {
        if root.len() < SDT_HEADER_SIZE {
            return Err(AcpiError::TooShort);
        }
        let length = read_u32(root, 4) as usize;
        if length < SDT_HEADER_SIZE || length > root.len() {
            return Err(AcpiError::TooShort);
        }
        let width: usize = if self.revision == 0 {
            4
        } else {
            8
        };
        let count = (length - SDT_HEADER_SIZE) / width;
        let ghost expected = root_pointers(root@, self.revision);
        let mut out: Vec<u64> = Vec::new();
        let mut index: usize = 0;
        while index < count
            invariant
                width == pointer_width(self.revision),
                count == expected.len(),
                length <= root@.len(),
                count == (length - SDT_HEADER_SIZE) / (width as int),
                length == le_at(root@, 4, 4),
                length >= SDT_HEADER_SIZE,
                width == 4 || width == 8,
                index <= count,
                out@ == expected.take(index as int),
                expected == root_pointers(root@, self.revision),
            decreases count - index,
        {
            proof {
                assert(width > 0);
                assert(width * index + width <= length - SDT_HEADER_SIZE) by (nonlinear_arith)
                    requires
                        index < count,
                        count == (length - SDT_HEADER_SIZE) / (width as int),
                        width > 0,
                        length >= SDT_HEADER_SIZE,
                {
                    vstd::arithmetic::div_mod::lemma_fundamental_div_mod((length - SDT_HEADER_SIZE) as int, width as int);
                }
            }
            let at = SDT_HEADER_SIZE + width * index;
            let value = if width == 4 {
                read_u32(root, at) as u64
            } else {
                read_u64(root, at)
            };
            out.push(value);
            proof {
                assert(out@ =~= expected.take(index as int + 1));
            }
            index = index + 1;
        }
        proof {
            assert(out@ =~= expected);
        }
        Ok(out)
    }

    /// The direct-map address of the first table listed in `root` whose
    /// signature is `signature`; `signatures[i]` is that of the i-th listed table.
    pub fn find_table(&self, root: &[u8], signatures: &[u32], signature: &str) -> (r: Result<Option<u64>, AcpiError>)
        requires
            signature.spec_bytes().len() == 4,
            self.revision == 0 || self.revision == 2,
        ensures
            r is Err <==> root_too_short(root@),
            r is Err ==> r == Err::<Option<u64>, AcpiError>(AcpiError::TooShort),
            r is Ok ==> {
                let tables = root_pointers(root@, self.revision);
                let n = if signatures@.len() < tables.len() {
                    signatures@.len() as int
                } else {
                    tables.len() as int
                };
                let i = first_match(signatures@, signature_value(signature.spec_bytes()), n);
                &&& i < 0 ==> r->Ok_0.is_none()
                &&& i >= 0 ==> r->Ok_0 == Some(spec_to_kernel(tables[i]))
            },
    {
        let tables = match self.table_addresses(root) {
            Ok(t) => t,
            Err(e) => {
                return Err(e);
            },
        };
        proof {
            assert(self.revision == 0 || self.revision == 2);
            assert(!root_too_short(root@));
        }
        let expected = Self::signature_to_u32(signature);
        let n = if signatures.len() < tables.len() {
            signatures.len()
        } else {
            tables.len()
        };
        let mut index: usize = 0;
        while index < n
            invariant
                n <= signatures@.len(),
                n <= tables@.len(),
                self.revision == 0 || self.revision == 2,
                !root_too_short(root@),
                tables@ == root_pointers(root@, self.revision),
                expected == signature_value(signature.spec_bytes()),
                n == (if signatures@.len() < tables@.len() {
                    signatures@.len() as int
                } else {
                    tables@.len() as int
                }),
                index <= n,
                first_match(signatures@, expected, index as int) == -1,
            decreases n - index,
        {
            if signatures[index] == expected {
                proof {
                    assert(first_match(signatures@, expected, index as int + 1) == index);
                    lemma_first_match(signatures@, expected, index as int + 1, n as int);
                }
                return Ok(Some(to_kernel_address(tables[index])));
            }
            index = index + 1;
        }
        proof {
            assert(first_match(signatures@, expected, n as int) == -1);
        }
        Ok(None)
    }
}

/// The local APIC's physical base from the APIC base register's value.
pub fn apic_base_from_msr(value: u64) -> (r: u64)
    ensures
        r == value & APIC_BASE_MASK,
{
    value & APIC_BASE_MASK
}

/// The APIC base register's value that keeps `base` and sets the global enable bit.
pub fn apic_base_msr_value(base: u64) -> (r: u64)
    ensures
        r == (base & APIC_BASE_MASK) | APIC_BASE_MSR_ENABLE,
{
    (base & APIC_BASE_MASK) | APIC_BASE_MSR_ENABLE
}

/// The spurious interrupt vector register's value with vector 255 and the
/// software enable bit set.
pub fn enabled_spurious_register(value: u32) -> (r: u32)
    ensures
        r == value | SPURIOUS_INTERRUPT_VECTOR | ENABLE_APIC_FLAG,
{
    value | SPURIOUS_INTERRUPT_VECTOR | ENABLE_APIC_FLAG
}

} // verus!
