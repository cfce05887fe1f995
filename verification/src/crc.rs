use vstd::prelude::*;

verus! {

/// One step of the 8-bit checksum register: shift left, and fold the
/// polynomial `0x07` in where a one bit falls out.
pub open spec fn crc8_shift(c: u8) -> u8 {
    if c & 0x80 != 0 {
        (c << 1) ^ 0x07
    } else {
        c << 1
    }
}

/// `k` steps of the 8-bit register.
pub open spec fn crc8_steps(c: u8, k: nat) -> u8
    decreases k,
{
    if k == 0 {
        c
    } else {
        crc8_shift(crc8_steps(c, (k - 1) as nat))
    }
}

/// The 8-bit checksum of a byte sequence: polynomial `0x07`, initial value 0,
/// most significant bit first.
pub open spec fn crc8(data: Seq<u8>) -> u8
    decreases data.len(),
{
    if data.len() == 0 {
        0
    } else {
        crc8_steps(crc8(data.drop_last()) ^ data.last(), 8)
    }
}

/// One step of the 16-bit checksum register, with the polynomial `0x8005`.
pub open spec fn crc16_shift(c: u16) -> u16 {
    if c & 0x8000 != 0 {
        (c << 1) ^ 0x8005
    } else {
        c << 1
    }
}

/// `k` steps of the 16-bit register.
pub open spec fn crc16_steps(c: u16, k: nat) -> u16
    decreases k,
{
    if k == 0 {
        c
    } else {
        crc16_shift(crc16_steps(c, (k - 1) as nat))
    }
}

/// The 16-bit checksum of a byte sequence: polynomial `0x8005`, initial value
/// 0, most significant bit first.
pub open spec fn crc16(data: Seq<u8>) -> u16
    decreases data.len(),
{
    if data.len() == 0 {
        0
    } else {
        crc16_steps(crc16(data.drop_last()) ^ ((data.last() as u16) << 8), 8)
    }
}

/// Feeds one byte to the 8-bit register.
pub fn crc8_update(crc: u8, byte: u8) -> (next: u8)
    ensures
        next == crc8_steps(crc ^ byte, 8),
{
    let mut c: u8 = crc ^ byte;
    let mut k: u8 = 0;
    while k < 8
        invariant
            k <= 8,
            c == crc8_steps(crc ^ byte, k as nat),
        decreases 8 - k,
    {
        c = if c & 0x80 != 0 {
            (c << 1) ^ 0x07
        } else {
            c << 1
        };
        k = k + 1;
    }
    c
}

/// The 8-bit checksum of `data[from..to]`.
pub fn crc8_of(data: &[u8], from: usize, to: usize) -> (crc: u8)
    requires
        from <= to <= data@.len(),
    ensures
        crc == crc8(data@.subrange(from as int, to as int)),
{
    let mut crc: u8 = 0;
    let mut i: usize = from;
    while i < to
        invariant
            from <= i <= to <= data@.len(),
            crc == crc8(data@.subrange(from as int, i as int)),
        decreases to - i,
    {
        assert(data@.subrange(from as int, i + 1).drop_last() =~= data@.subrange(
            from as int,
            i as int,
        ));
        crc = crc8_update(crc, data[i]);
        i = i + 1;
    }
    crc
}

/// Feeds one byte to the 16-bit register.
pub fn crc16_update(crc: u16, byte: u8) -> (next: u16)
    ensures
        next == crc16_steps(crc ^ ((byte as u16) << 8), 8),
{
    let mut c: u16 = crc ^ ((byte as u16) << 8);
    let mut k: u8 = 0;
    while k < 8
        invariant
            k <= 8,
            c == crc16_steps(crc ^ ((byte as u16) << 8), k as nat),
        decreases 8 - k,
    {
        c = if c & 0x8000 != 0 {
            (c << 1) ^ 0x8005
        } else {
            c << 1
        };
        k = k + 1;
    }
    c
}

/// The 16-bit checksum of `data[from..to]`.
pub fn crc16_of(data: &[u8], from: usize, to: usize) -> (crc: u16)
    requires
        from <= to <= data@.len(),
    ensures
        crc == crc16(data@.subrange(from as int, to as int)),
{
    let mut crc: u16 = 0;
    let mut i: usize = from;
    while i < to
        invariant
            from <= i <= to <= data@.len(),
            crc == crc16(data@.subrange(from as int, i as int)),
        decreases to - i,
    {
        assert(data@.subrange(from as int, i + 1).drop_last() =~= data@.subrange(
            from as int,
            i as int,
        ));
        crc = crc16_update(crc, data[i]);
        i = i + 1;
    }
    crc
}

proof fn lemma_crc8_steps_injective(x: u8, y: u8, k: nat)
    requires
        crc8_steps(x, k) == crc8_steps(y, k),
    ensures
        x == y,
    decreases k,
{
    if k > 0 {
        let a = crc8_steps(x, (k - 1) as nat);
        let b = crc8_steps(y, (k - 1) as nat);
        assert(crc8_shift(a) == crc8_shift(b) ==> a == b) by (bit_vector);
        lemma_crc8_steps_injective(x, y, (k - 1) as nat);
    }
}

proof fn lemma_crc16_steps_injective(x: u16, y: u16, k: nat)
    requires
        crc16_steps(x, k) == crc16_steps(y, k),
    ensures
        x == y,
    decreases k,
{
    if k > 0 {
        let a = crc16_steps(x, (k - 1) as nat);
        let b = crc16_steps(y, (k - 1) as nat);
        assert(crc16_shift(a) == crc16_shift(b) ==> a == b) by (bit_vector);
        lemma_crc16_steps_injective(x, y, (k - 1) as nat);
    }
}

/// Two byte sequences of one length that differ in exactly one byte, be it in
/// a single bit of it, never have the same 8-bit checksum.
pub proof fn lemma_crc8_detects_one_changed_byte(a: Seq<u8>, b: Seq<u8>, at: int)
    requires
        a.len() == b.len(),
        0 <= at < a.len(),
        a[at] != b[at],
        forall|j: int| 0 <= j < a.len() && j != at ==> a[j] == b[j],
    ensures
        crc8(a) != crc8(b),
    decreases a.len(),
{
    let ca = crc8(a.drop_last());
    let cb = crc8(b.drop_last());
    let da = a.last();
    let db = b.last();
    if at == a.len() - 1 {
        assert(a.drop_last() =~= b.drop_last());
    } else {
        lemma_crc8_detects_one_changed_byte(a.drop_last(), b.drop_last(), at);
    }
    assert(ca ^ da == cb ^ db ==> (ca == cb <==> da == db)) by (bit_vector);
    if crc8(a) == crc8(b) {
        lemma_crc8_steps_injective(ca ^ da, cb ^ db, 8);
    }
}

/// Two byte sequences of one length that differ in exactly one byte never
/// have the same 16-bit checksum.
pub proof fn lemma_crc16_detects_one_changed_byte(a: Seq<u8>, b: Seq<u8>, at: int)
    requires
        a.len() == b.len(),
        0 <= at < a.len(),
        a[at] != b[at],
        forall|j: int| 0 <= j < a.len() && j != at ==> a[j] == b[j],
    ensures
        crc16(a) != crc16(b),
    decreases a.len(),
{
    let ca = crc16(a.drop_last());
    let cb = crc16(b.drop_last());
    let da = a.last();
    let db = b.last();
    if at == a.len() - 1 {
        assert(a.drop_last() =~= b.drop_last());
    } else {
        lemma_crc16_detects_one_changed_byte(a.drop_last(), b.drop_last(), at);
    }
    assert(ca ^ ((da as u16) << 8) == cb ^ ((db as u16) << 8) ==> (ca == cb <==> da == db))
        by (bit_vector);
    if crc16(a) == crc16(b) {
        lemma_crc16_steps_injective(ca ^ ((da as u16) << 8), cb ^ ((db as u16) << 8), 8);
    }
}

} // verus!
