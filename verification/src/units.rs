use vstd::prelude::*;

verus! {

/// The decimal units in which sizes are shown.
pub enum SizeUnit {
    Terabytes,
    Gigabytes,
    Megabytes,
    Kilobytes,
    Bytes,
}

/// How many bytes one of the unit is.
pub open spec fn unit_bytes(u: SizeUnit) -> nat {
    match u {
        SizeUnit::Terabytes => 1_000_000_000_000,
        SizeUnit::Gigabytes => 1_000_000_000,
        SizeUnit::Megabytes => 1_000_000,
        SizeUnit::Kilobytes => 1_000,
        SizeUnit::Bytes => 1,
    }
}

/// The unit's symbol.
pub open spec fn unit_label(u: SizeUnit) -> Seq<char> {
    match u {
        SizeUnit::Terabytes => seq!['T', 'B'],
        SizeUnit::Gigabytes => seq!['G', 'B'],
        SizeUnit::Megabytes => seq!['M', 'B'],
        SizeUnit::Kilobytes => seq!['K', 'B'],
        SizeUnit::Bytes => seq!['B'],
    }
}

impl SizeUnit {
    /// How many bytes one of the unit is.
    pub fn bytes(&self) -> (r: u64)
        ensures
            r == unit_bytes(*self),
    {
        match self {
            SizeUnit::Terabytes => 1_000_000_000_000,
            SizeUnit::Gigabytes => 1_000_000_000,
            SizeUnit::Megabytes => 1_000_000,
            SizeUnit::Kilobytes => 1_000,
            SizeUnit::Bytes => 1,
        }
    }

    /// The unit's symbol.
    pub fn label(&self) -> (r: &'static str)
        ensures
            r@ == unit_label(*self),
    {
        proof {
            reveal_strlit("TB");
            reveal_strlit("GB");
            reveal_strlit("MB");
            reveal_strlit("KB");
            reveal_strlit("B");
        }
        match self {
            SizeUnit::Terabytes => "TB",
            SizeUnit::Gigabytes => "GB",
            SizeUnit::Megabytes => "MB",
            SizeUnit::Kilobytes => "KB",
            SizeUnit::Bytes => "B",
        }
    }
}

/// The unit in which a size is shown: the largest one that the size reaches,
/// none for an empty size.
pub open spec fn unit_for(bytes: u64) -> Option<SizeUnit> {
    if bytes >= 1_000_000_000_000 {
        Some(SizeUnit::Terabytes)
    } else if bytes >= 1_000_000_000 {
        Some(SizeUnit::Gigabytes)
    } else if bytes >= 1_000_000 {
        Some(SizeUnit::Megabytes)
    } else if bytes >= 1_000 {
        Some(SizeUnit::Kilobytes)
    } else if bytes >= 1 {
        Some(SizeUnit::Bytes)
    } else {
        None
    }
}

/// How many decimals a size is shown with in a unit of `unit` bytes: none from
/// 100 units on, one from 10 units on, two below.
pub open spec fn decimals_for(bytes: u64, unit: nat) -> usize {
    if bytes >= 100 * unit {
        0
    } else if bytes >= 10 * unit {
        1
    } else {
        2
    }
}

/// How a size is written: in which unit, with how many decimals.
pub struct SizeFormat {
    pub unit: SizeUnit,
    pub decimals: usize,
}

/// How a size is written; `None` for an empty size, which reads "0 B".
pub fn size_format(bytes: u64) -> (r: Option<SizeFormat>)
    ensures
        match unit_for(bytes) {
            None => r is None,
            Some(u) => r matches Some(f) && f.unit == u && f.decimals == decimals_for(
                bytes,
                unit_bytes(u),
            ),
        },
{
    let unit = if bytes >= 1_000_000_000_000 {
        SizeUnit::Terabytes
    } else if bytes >= 1_000_000_000 {
        SizeUnit::Gigabytes
    } else if bytes >= 1_000_000 {
        SizeUnit::Megabytes
    } else if bytes >= 1_000 {
        SizeUnit::Kilobytes
    } else if bytes >= 1 {
        SizeUnit::Bytes
    } else {
        return None;
    };
    let t = unit.bytes();
    let decimals = if bytes >= 100 * t {
        0
    } else if bytes >= 10 * t {
        1
    } else {
        2
    };
    Some(SizeFormat { unit, decimals })
}

/// The size divided by its unit, before rounding, is at least one, and below
/// a thousand in every unit but the largest (rounding may still write 1000).
pub proof fn law_shown_number_range(bytes: u64)
    ensures
        unit_for(bytes) is None <==> bytes == 0,
        unit_for(bytes) matches Some(u) ==> unit_bytes(u) <= bytes && (u !is Terabytes ==> bytes
            < 1000 * unit_bytes(u)),
{
}

/// The SI prefix letter of a power of a thousand bytes, if it has one.
pub open spec fn si_prefix(bytes: nat) -> Seq<char> {
    if bytes == 1_000 {
        seq!['K']
    } else if bytes == 1_000_000 {
        seq!['M']
    } else if bytes == 1_000_000_000 {
        seq!['G']
    } else if bytes == 1_000_000_000_000 {
        seq!['T']
    } else {
        Seq::empty()
    }
}

/// A unit's symbol is the SI prefix of its byte count followed by `B`, so
/// units of different sizes have different symbols.
pub proof fn law_symbol_matches_size(u: SizeUnit, v: SizeUnit)
    ensures
        unit_label(u) == si_prefix(unit_bytes(u)) + seq!['B'],
        unit_bytes(u) != unit_bytes(v) ==> unit_label(u) != unit_label(v),
{
    assert(unit_label(u) =~= si_prefix(unit_bytes(u)) + seq!['B']);
    assert(unit_label(v) =~= si_prefix(unit_bytes(v)) + seq!['B']);
    if unit_bytes(u) != unit_bytes(v) {
        let a = si_prefix(unit_bytes(u));
        let b = si_prefix(unit_bytes(v));
        if a.len() == b.len() && a.len() > 0 {
            assert(a[0] != b[0]);
            assert(unit_label(u)[0] != unit_label(v)[0]);
        } else {
            assert(unit_label(u).len() != unit_label(v).len());
        }
    }
}

} // verus!
