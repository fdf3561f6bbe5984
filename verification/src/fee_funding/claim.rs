//! The claim of a wallet.

use vstd::prelude::*;

verus! {

/// The place of the wallet that is tried `tried` places behind the first one.
pub open spec fn wallet_place(scan_from: int, tried: int, wallets: int) -> int {
    (scan_from + tried) % wallets
}

/// A process on its way to a wallet of its own.
#[derive(Clone, Copy, Debug, PartialEq, Eq, Structural)]
pub struct Claim {
    /// How many wallets there are.
    pub wallets: usize,
    /// Where the process starts to look, so that not all processes try the same wallet first.
    pub scan_from: u32,
    /// How many wallets were found to be busy.
    pub busy: usize,
}

/// What a process does next to get a wallet.
#[derive(Clone, Copy, Debug, PartialEq, Eq, Structural)]
pub enum ClaimStep {
    /// It tries the wallet at this place.
    Try(usize),
    /// Every wallet is busy: it waits for the one at this place. Waiting where it started spreads
    /// the waiting processes.
    Wait(usize),
}

impl Claim {
    /// Whether the numbers go together.
    pub open spec fn is_valid(self) -> bool {
        &&& 0 < self.wallets
        &&& self.busy <= self.wallets
        &&& self.scan_from + self.wallets <= usize::MAX
    }

    /// A process that has tried no wallet yet. Without wallets there is nothing to claim.
    pub fn new(wallets: usize, scan_from: u32) -> (r: Option<Claim>)
        requires
            scan_from + wallets <= usize::MAX,
        ensures
            match r {
                Some(claim) => claim.is_valid() && claim == (Claim { wallets, scan_from, busy: 0 }),
                None => wallets == 0,
            },
    {
        if wallets == 0 {
            None
        } else {
            Some(Claim { wallets, scan_from, busy: 0 })
        }
    }

    /// What the process does next: it tries the wallets one behind the other, and waits once all
    /// of them are busy.
    pub open spec fn asks(self) -> ClaimStep {
        if self.busy < self.wallets {
            ClaimStep::Try(
                wallet_place(
                    self.scan_from as int,
                    self.busy as int,
                    self.wallets as int,
                ) as usize,
            )
        } else {
            ClaimStep::Wait(wallet_place(self.scan_from as int, 0, self.wallets as int) as usize)
        }
    }

    /// What the process does next.
    pub fn step(&self) -> (r: ClaimStep)
        requires
            self.is_valid(),
        ensures
            r == self.asks(),
            match r {
                ClaimStep::Try(place) => place < self.wallets,
                ClaimStep::Wait(place) => place < self.wallets,
            },
    {
        let from: usize = self.scan_from as usize;
        if self.busy < self.wallets {
            ClaimStep::Try((from + self.busy) % self.wallets)
        } else {
            ClaimStep::Wait(from % self.wallets)
        }
    }

    /// Takes note that the wallet tried last is busy.
    pub fn found_busy(&mut self)
        requires
            old(self).is_valid(),
            old(self).busy < old(self).wallets,
        ensures
            final(self).is_valid(),
            *final(self) == (Claim { busy: (old(self).busy + 1) as usize, ..*old(self) }),
    {
        self.busy = self.busy + 1;
    }
}

/// Before a process waits it has tried every wallet, and none twice.
pub proof fn lemma_every_wallet_is_tried_once(scan_from: int, wallets: int, place: int)
    requires
        0 <= scan_from,
        0 <= place < wallets,
    ensures
        exists|tried: int|
            0 <= tried < wallets && #[trigger] wallet_place(scan_from, tried, wallets) == place,
        forall|tried: int, other: int|
            #![trigger wallet_place(scan_from, tried, wallets), wallet_place(
                scan_from,
                other,
                wallets,
            )]
            0 <= tried < wallets && 0 <= other < wallets && wallet_place(scan_from, tried, wallets)
                == wallet_place(scan_from, other, wallets) ==> tried == other,
{
    let first = scan_from % wallets;
    let round = scan_from / wallets;
    assert(scan_from == round * wallets + first && 0 <= first < wallets) by (nonlinear_arith)
        requires
            first == scan_from % wallets,
            round == scan_from / wallets,
            0 < wallets,
    ;
    assert forall|tried: int| 0 <= tried < wallets implies #[trigger] wallet_place(
        scan_from,
        tried,
        wallets,
    ) == if first + tried < wallets {
        first + tried
    } else {
        first + tried - wallets
    } by {
        lemma_place(scan_from, tried, wallets, first, round);
    }
    let tried = if place >= first {
        place - first
    } else {
        place - first + wallets
    };
    assert(wallet_place(scan_from, tried, wallets) == place);
}

proof fn lemma_place(scan_from: int, tried: int, wallets: int, first: int, round: int)
    by (nonlinear_arith)
    requires
        0 < wallets,
        0 <= tried < wallets,
        0 <= first < wallets,
        0 <= round,
        scan_from == round * wallets + first,
    ensures
        (scan_from + tried) % wallets == if first + tried < wallets {
            first + tried
        } else {
            first + tried - wallets
        },
{
    if first + tried < wallets {
        assert((round * wallets + (first + tried)) % wallets == first + tried);
    } else {
        assert((round + 1) * wallets == round * wallets + wallets);
        assert(((round + 1) * wallets + (first + tried - wallets)) % wallets == first + tried
            - wallets);
    }
}

/// A process waits exactly when it has found every wallet busy, and then where it began. Until then
/// it tries them one behind the other, from the place where it starts to look, and comes from the
/// last one to the first, so that each wallet gets its turn.
pub proof fn lemma_wallets_are_tried_in_turn(claim: Claim, place: int)
    requires
        claim.is_valid(),
        0 <= place < claim.wallets,
    ensures
        claim.asks() is Wait <==> claim.busy == claim.wallets,
        (Claim { busy: 0, ..claim }).asks() == ClaimStep::Try(
            (claim.scan_from as int % claim.wallets as int) as usize,
        ),
        claim.asks() is Wait ==> claim.asks() == ClaimStep::Wait(
            (claim.scan_from as int % claim.wallets as int) as usize,
        ),
        claim.busy + 1 < claim.wallets && claim.asks() == ClaimStep::Try(place as usize) ==> (Claim {
            busy: (claim.busy + 1) as usize,
            ..claim
        }).asks() == ClaimStep::Try(
            if place + 1 < claim.wallets {
                (place + 1) as usize
            } else {
                0
            },
        ),
        exists|busy: int|
            0 <= busy < claim.wallets && #[trigger] (Claim {
                busy: busy as usize,
                ..claim
            }).asks() == ClaimStep::Try(place as usize),
{
    let from = claim.scan_from as int;
    let wallets = claim.wallets as int;
    let busy = claim.busy as int;
    lemma_every_wallet_is_tried_once(from, wallets, place);
    let tried = choose|tried: int|
        0 <= tried < wallets && #[trigger] wallet_place(from, tried, wallets) == place;
    assert((Claim { busy: tried as usize, ..claim }).asks() == ClaimStep::Try(place as usize));
    if busy + 1 < wallets {
        let first = from % wallets;
        let round = from / wallets;
        assert(from == round * wallets + first && 0 <= first < wallets && 0 <= round)
            by (nonlinear_arith)
            requires
                first == from % wallets,
                round == from / wallets,
                0 < wallets,
                0 <= from,
        ;
        lemma_place(from, busy, wallets, first, round);
        lemma_place(from, busy + 1, wallets, first, round);
    }
}

} // verus!
