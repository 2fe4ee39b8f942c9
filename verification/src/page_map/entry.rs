use vstd::prelude::*;

verus! {

/// The metadata that owns a page: a run of small blocks or a dedicated
/// extent, named by the address of its arena entry. Arena entries are at
/// least 2-byte aligned and never at address 0.
#[derive(Clone, Copy, Debug, PartialEq, Eq, Structural)]
pub enum PageOwner {
    Run(usize),
    Extent(usize),
}

/// Whether `owner` names an address that a page-map entry can encode.
pub open spec fn encodable(owner: PageOwner) -> bool {
    match owner {
        PageOwner::Run(a) => a != 0 && a % 2 == 0,
        PageOwner::Extent(a) => a != 0 && a % 2 == 0,
    }
}

/// The word stored for `owner`: run addresses as they are, extent addresses
/// with the low bit set.
pub open spec fn encode(owner: PageOwner) -> usize {
    match owner {
        PageOwner::Run(a) => a,
        PageOwner::Extent(a) => (a + 1) as usize,
    }
}

/// The owner a stored word stands for; the zero word stands for none.
pub open spec fn decode(word: usize) -> Option<PageOwner> {
    if word == 0 {
        None
    } else if word % 2 == 0 {
        Some(PageOwner::Run(word))
    } else {
        Some(PageOwner::Extent((word - 1) as usize))
    }
}

/// One page-map slot: the encoded owner of a page, or zero for none.
#[derive(Clone, Copy, Debug, PartialEq, Eq, Structural)]
pub struct MapEntry(usize);

impl MapEntry {
    /// The stored word.
    pub closed spec fn word(self) -> usize {
        self.0
    }

    /// Whether the entry records no owner.
    pub open spec fn spec_is_empty(self) -> bool {
        self.word() == 0
    }

    /// The owner this entry records.
    pub open spec fn spec_owner(self) -> Option<PageOwner> {
        decode(self.word())
    }

    /// The entry of a page that nothing owns.
    pub closed spec fn spec_empty() -> MapEntry {
        MapEntry(0)
    }

    /// The empty entry is the only entry that records no owner.
    pub proof fn lemma_empty_unique(e: MapEntry)
        ensures
            MapEntry::spec_empty().spec_is_empty(),
            MapEntry::spec_empty().spec_owner() is None,
            e.spec_is_empty() <==> e == MapEntry::spec_empty(),
    {
    }

    /// The entry of a page that nothing owns.
    pub fn empty() -> (r: MapEntry)
        ensures
            r == MapEntry::spec_empty(),
            r.spec_is_empty(),
            r.spec_owner() is None,
    {
        MapEntry(0)
    }

    /// The entry recording `owner`, when its address can be encoded.
    pub fn from_owner(owner: PageOwner) -> (r: Option<MapEntry>)
        ensures
            r is Some <==> encodable(owner),
            r matches Some(e) ==> e.word() == encode(owner) && !e.spec_is_empty() && e.spec_owner()
                == Some(owner),
    {
        match owner {
            PageOwner::Run(a) => {
                if a == 0 || a % 2 != 0 {
                    None
                } else {
                    Some(MapEntry(a))
                }
            },
            PageOwner::Extent(a) => {
                if a == 0 || a % 2 != 0 {
                    None
                } else {
                    Some(MapEntry(a + 1))
                }
            },
        }
    }

    /// Whether the entry records no owner.
    pub fn is_empty(self) -> (r: bool)
        ensures
            r == self.spec_is_empty(),
    {
        self.0 == 0
    }

    /// The owner this entry records.
    pub fn owner(self) -> (r: Option<PageOwner>)
        ensures
            r == self.spec_owner(),
    {
        if self.0 == 0 {
            None
        } else if self.0 % 2 == 0 {
            Some(PageOwner::Run(self.0))
        } else {
            Some(PageOwner::Extent(self.0 - 1))
        }
    }

    /// An entry records an encodable owner exactly when it is that owner's encoding.
    pub proof fn lemma_decode_encode(e: MapEntry, owner: PageOwner)
        requires
            encodable(owner),
        ensures
            e.spec_owner() == Some(owner) <==> e.word() == encode(owner),
    {
    }

    /// Entries are determined by their stored word.
    pub proof fn lemma_word_injective(a: MapEntry, b: MapEntry)
        ensures
            a.word() == b.word() <==> a == b,
    {
    }

    /// The map never confuses two owners: distinct encodable owners, a run
    /// and an extent at the same address among them, get distinct entries,
    /// and every entry reads back as the owner it was made from.
    pub proof fn lemma_encode_injective(a: PageOwner, b: PageOwner)
        requires
            encodable(a),
            encodable(b),
        ensures
            encode(a) == encode(b) <==> a == b,
            decode(encode(a)) == Some(a),
    {
    }
}

} // verus!
