//! What the host is asked to do with the tokens: for an order that is
//! placed, for a trade, and for the dust of an order that a trade has filled.

use vstd::prelude::*;
use crate::engine::Module;
use crate::host::Trait;
use crate::settle::{give_of, have_of, settlement, Settlement};
use crate::types::{
    AccountId, Balance, Error, LimitOrder, OrderType, TokenFault, TradePair, H256,
};

verus! {

/// A request to the token ledger of the host.
#[derive(Clone, Copy, Debug, PartialEq, Eq, Structural)]
pub enum TokenOp {
    /// Move `amount` of `token` from the free to the frozen balance of `who`.
    Freeze { who: AccountId, token: H256, amount: Balance },
    /// Move `amount` of `token` from the frozen to the free balance of `who`.
    Unfreeze { who: AccountId, token: H256, amount: Balance },
    /// Move `amount` of `token` from the free balance of `from` to that of
    /// `to`.
    Transfer { from: AccountId, to: AccountId, token: H256, amount: Balance },
}

/// The token that an order of the side `otype` sells in the pair `tp`: the
/// base token if it buys, the quote token if it sells.
pub open spec fn sold_token(tp: TradePair, otype: OrderType) -> H256 {
    if otype == OrderType::Buy {
        tp.base
    } else {
        tp.quote
    }
}

/// The request that goes with the placing of an order of `who` that sells
/// `amount`: the amount is frozen.
pub open spec fn placing(tp: TradePair, who: AccountId, otype: OrderType, amount: Balance) -> TokenOp {
    TokenOp::Freeze { who, token: sold_token(tp, otype), amount }
}

/// The requests that go with a trade of `base_qty` against `quote_qty`, in
/// order: what the taker gives is unfrozen, what the maker gives is unfrozen,
/// the taker's part goes to the maker, the maker's part goes to the taker.
pub open spec fn exchange(
    tp: TradePair,
    maker: LimitOrder,
    taker: LimitOrder,
    base_qty: Balance,
    quote_qty: Balance,
) -> Seq<TokenOp> {
    let give = sold_token(tp, taker.otype);
    let have = sold_token(tp, taker.otype.flip());
    let give_qty = give_of(taker, base_qty, quote_qty);
    let have_qty = have_of(taker, base_qty, quote_qty);
    seq![
        TokenOp::Unfreeze { who: taker.owner, token: give, amount: give_qty },
        TokenOp::Unfreeze { who: maker.owner, token: have, amount: have_qty },
        TokenOp::Transfer { from: taker.owner, to: maker.owner, token: give, amount: give_qty },
        TokenOp::Transfer { from: maker.owner, to: taker.owner, token: have, amount: have_qty },
    ]
}

/// The requests that give the dust of a trade back, the taker's first: an
/// order that the trade has filled with something left to sell has that
/// unfrozen.
pub open spec fn dust_return(tp: TradePair, maker: LimitOrder, taker: LimitOrder, s: Settlement) -> Seq<
    TokenOp,
> {
    let give = sold_token(tp, taker.otype);
    let have = sold_token(tp, taker.otype.flip());
    let first = if s.taker_dust != 0 {
        seq![TokenOp::Unfreeze { who: taker.owner, token: give, amount: s.taker_dust }]
    } else {
        Seq::empty()
    };
    let second = if s.maker_dust != 0 {
        seq![TokenOp::Unfreeze { who: maker.owner, token: have, amount: s.maker_dust }]
    } else {
        Seq::empty()
    };
    first + second
}

/// How much of `token` the request `op` unfreezes for `who`.
pub open spec fn unfreezes(op: TokenOp, who: AccountId, token: H256) -> int {
    match op {
        TokenOp::Unfreeze { who: w, token: t, amount } => if w == who && t == token {
            amount as int
        } else {
            0
        },
        _ => 0,
    }
}

/// How much of `token` the requests `ops` unfreeze for `who`.
pub open spec fn unfrozen(ops: Seq<TokenOp>, who: AccountId, token: H256) -> int
    decreases ops.len(),
{
    if ops.len() == 0 {
        0
    } else {
        unfrozen(ops.drop_last(), who, token) + unfreezes(ops.last(), who, token)
    }
}

impl Module {
    /// The token that an order of the side `otype` sells in the pair `tp`.
    pub fn sold(tp: &TradePair, otype: OrderType) -> (r: H256)
        ensures
            r == sold_token(*tp, otype),
    {
        match otype {
            OrderType::Buy => tp.base,
            OrderType::Sell => tp.quote,
        }
    }

    /// The requests that go with a trade of `base_qty` against `quote_qty`
    /// between `maker_order` and `taker_order`.
    pub fn exchange_ops(
        tp: &TradePair,
        maker_order: &LimitOrder,
        taker_order: &LimitOrder,
        base_qty: Balance,
        quote_qty: Balance,
    ) -> (ops: Vec<TokenOp>)
        ensures
            ops@ == exchange(*tp, *maker_order, *taker_order, base_qty, quote_qty),
    {
        let give = Self::sold(tp, taker_order.otype);
        let have = Self::sold(tp, taker_order.otype.not());
        let give_qty: Balance;
        let have_qty: Balance;
        match taker_order.otype {
            OrderType::Buy => {
                give_qty = base_qty;
                have_qty = quote_qty;
            },
            OrderType::Sell => {
                give_qty = quote_qty;
                have_qty = base_qty;
            },
        }
        let mut ops = Vec::new();
        ops.push(TokenOp::Unfreeze { who: taker_order.owner, token: give, amount: give_qty });
        ops.push(TokenOp::Unfreeze { who: maker_order.owner, token: have, amount: have_qty });
        ops.push(
            TokenOp::Transfer {
                from: taker_order.owner,
                to: maker_order.owner,
                token: give,
                amount: give_qty,
            },
        );
        ops.push(
            TokenOp::Transfer {
                from: maker_order.owner,
                to: taker_order.owner,
                token: have,
                amount: have_qty,
            },
        );
        proof {
            assert(ops@ =~= exchange(*tp, *maker_order, *taker_order, base_qty, quote_qty));
        }
        ops
    }

    /// The requests that give the dust of a trade between `maker_order` and
    /// `taker_order` back, where `s` is what the trade made of the two.
    pub fn dust_ops(
        tp: &TradePair,
        maker_order: &LimitOrder,
        taker_order: &LimitOrder,
        s: &Settlement,
    ) -> (ops: Vec<TokenOp>)
        ensures
            ops@ == dust_return(*tp, *maker_order, *taker_order, *s),
    {
        let give = Self::sold(tp, taker_order.otype);
        let have = Self::sold(tp, taker_order.otype.not());
        let mut ops = Vec::new();
        if s.taker_dust != 0 {
            ops.push(TokenOp::Unfreeze { who: taker_order.owner, token: give, amount: s.taker_dust });
        }
        if s.maker_dust != 0 {
            ops.push(TokenOp::Unfreeze { who: maker_order.owner, token: have, amount: s.maker_dust });
        }
        proof {
            assert(ops@ =~= dust_return(*tp, *maker_order, *taker_order, *s));
        }
        ops
    }

    /// Hands one request to the host. A refusal becomes an error of the
    /// token collaborator.
    pub fn perform<T: Trait>(host: &mut T, op: TokenOp) -> (r: Result<(), Error>)
        ensures
            r matches Err(e) ==> e is TokenOp,
    {
        let answer = match op {
            TokenOp::Freeze { who, token, amount } => host.freeze(who, token, amount),
            TokenOp::Unfreeze { who, token, amount } => host.unfreeze(who, token, amount),
            TokenOp::Transfer { from, to, token, amount } => host.transfer(from, to, token, amount),
        };
        Self::answered(answer)
    }

    /// Hands the requests to the host, in order, up to the first that it
    /// refuses. The requests after a refusal are not made, and the refusal
    /// is the result, as [`Module::answered`] gives it. Where the host
    /// refuses none, and so where there is no request at all, the result
    /// is `Ok`.
    pub fn perform_all<T: Trait>(host: &mut T, ops: &Vec<TokenOp>) -> (r: Result<(), Error>)
        ensures
            r matches Err(e) ==> e is TokenOp && ops@.len() > 0,
    {
        let mut i: usize = 0;
        while i < ops.len()
            invariant
                i <= ops.len(),
            decreases ops.len() - i,
        {
            match Self::perform(host, ops[i]) {
                Ok(()) => {},
                Err(e) => {
                    return Err(e);
                },
            }
            i += 1;
        }
        Ok(())
    }

    /// The request that goes with the placing of an order of `who` on the
    /// side `otype` of the pair `tp` that sells `amount`.
    pub fn placing_op(tp: &TradePair, who: AccountId, otype: OrderType, amount: Balance) -> (op:
        TokenOp)
        ensures
            op == placing(*tp, who, otype, amount),
    {
        TokenOp::Freeze { who, token: Self::sold(tp, otype), amount }
    }

    /// What the answer of the host to a request means for the exchange: a
    /// request that the host has carried out is done, and a refusal of the
    /// host is an error of the token collaborator, with the fault that the
    /// host gave.
    pub fn answered(answer: Result<(), TokenFault>) -> (r: Result<(), Error>)
        ensures
            r == answer_of(answer),
    {
        match answer {
            Ok(()) => Ok(()),
            Err(fault) => Err(Error::TokenOp(fault)),
        }
    }
}

/// What the answer of the host to a request means for the exchange: a
/// refusal is an error of the token collaborator with the host's fault.
pub open spec fn answer_of(answer: Result<(), TokenFault>) -> Result<(), Error> {
    match answer {
        Ok(_) => Ok(()),
        Err(fault) => Err(Error::TokenOp(fault)),
    }
}

/// What is unfrozen for the taker in a trade, its part of the exchange and
/// its dust, is what its order has less to sell after the trade; and so for
/// the maker. So what is frozen for an order stays what the order has left to
/// sell.
pub proof fn law_unfrozen_is_sold(
    tp: TradePair,
    maker: LimitOrder,
    taker: LimitOrder,
    base_qty: Balance,
    quote_qty: Balance,
    s: Settlement,
)
    requires
        tp.base != tp.quote,
        settlement(maker, taker, base_qty, quote_qty) == Ok::<Settlement, Error>(s),
    ensures
        unfrozen(
            exchange(tp, maker, taker, base_qty, quote_qty) + dust_return(tp, maker, taker, s),
            taker.owner,
            sold_token(tp, taker.otype),
        ) == taker.remained_sell_amount - s.taker.remained_sell_amount,
        unfrozen(
            exchange(tp, maker, taker, base_qty, quote_qty) + dust_return(tp, maker, taker, s),
            maker.owner,
            sold_token(tp, taker.otype.flip()),
        ) == maker.remained_sell_amount - s.maker.remained_sell_amount,
{
    let ex = exchange(tp, maker, taker, base_qty, quote_qty);
    let dust = dust_return(tp, maker, taker, s);
    let all = ex + dust;
    let give = sold_token(tp, taker.otype);
    let have = sold_token(tp, taker.otype.flip());
    assert(give != have);
    lemma_unfrozen_exchange(ex, taker.owner, give);
    lemma_unfrozen_exchange(ex, maker.owner, have);
    lemma_unfrozen_sum(ex, dust, taker.owner, give);
    lemma_unfrozen_sum(ex, dust, maker.owner, have);
    lemma_unfrozen_dust(dust, taker.owner, give);
    lemma_unfrozen_dust(dust, maker.owner, have);
}

/// What the requests of a trade unfreeze for any account, of any token: for
/// the owner of the taker what the taker gives and its dust, of the token
/// that the taker sells; for the owner of the maker what the taker gets and
/// the maker's dust, of the other token.
pub proof fn lemma_unfrozen_of_trade(
    tp: TradePair,
    maker: LimitOrder,
    taker: LimitOrder,
    base_qty: Balance,
    quote_qty: Balance,
    s: Settlement,
    who: AccountId,
    token: H256,
)
    ensures
        unfrozen(
            exchange(tp, maker, taker, base_qty, quote_qty) + dust_return(tp, maker, taker, s),
            who,
            token,
        ) == (if who == taker.owner && token == sold_token(tp, taker.otype) {
            give_of(taker, base_qty, quote_qty) + s.taker_dust
        } else {
            0
        }) + (if who == maker.owner && token == sold_token(tp, taker.otype.flip()) {
            have_of(taker, base_qty, quote_qty) + s.maker_dust
        } else {
            0
        }),
{
    let ex = exchange(tp, maker, taker, base_qty, quote_qty);
    let dust = dust_return(tp, maker, taker, s);
    lemma_unfrozen_exchange(ex, who, token);
    lemma_unfrozen_sum(ex, dust, who, token);
    lemma_unfrozen_dust(dust, who, token);
}

/// What two lists of requests unfreeze is the sum of what each unfreezes.
proof fn lemma_unfrozen_sum(a: Seq<TokenOp>, b: Seq<TokenOp>, who: AccountId, token: H256)
    ensures
        unfrozen(a + b, who, token) == unfrozen(a, who, token) + unfrozen(b, who, token),
    decreases b.len(),
{
    if b.len() == 0 {
        assert(a + b =~= a);
    } else {
        assert((a + b).drop_last() =~= a + b.drop_last());
        assert((a + b).last() == b.last());
        lemma_unfrozen_sum(a, b.drop_last(), who, token);
    }
}

/// What a list of four requests unfreezes, request by request.
proof fn lemma_unfrozen_exchange(ops: Seq<TokenOp>, who: AccountId, token: H256)
    requires
        ops.len() == 4,
    ensures
        unfrozen(ops, who, token) == unfreezes(ops[0], who, token) + unfreezes(ops[1], who, token)
            + unfreezes(ops[2], who, token) + unfreezes(ops[3], who, token),
{
    let a = seq![ops[0]];
    let b = seq![ops[1]];
    let c = seq![ops[2]];
    let d = seq![ops[3]];
    assert(ops =~= a + b + c + d);
    lemma_unfrozen_sum(a + b + c, d, who, token);
    lemma_unfrozen_sum(a + b, c, who, token);
    lemma_unfrozen_sum(a, b, who, token);
    lemma_unfrozen_one(ops[0], who, token);
    lemma_unfrozen_one(ops[1], who, token);
    lemma_unfrozen_one(ops[2], who, token);
    lemma_unfrozen_one(ops[3], who, token);
}

/// What a single request unfreezes.
proof fn lemma_unfrozen_one(op: TokenOp, who: AccountId, token: H256)
    ensures
        unfrozen(seq![op], who, token) == unfreezes(op, who, token),
{
    let one = seq![op];
    assert(one.drop_last() =~= Seq::<TokenOp>::empty());
    assert(one.last() == op);
    assert(unfrozen(one.drop_last(), who, token) == 0);
}

/// What a list of at most two requests unfreezes, request by request.
proof fn lemma_unfrozen_dust(ops: Seq<TokenOp>, who: AccountId, token: H256)
    requires
        ops.len() <= 2,
    ensures
        ops.len() == 0 ==> unfrozen(ops, who, token) == 0,
        ops.len() == 1 ==> unfrozen(ops, who, token) == unfreezes(ops[0], who, token),
        ops.len() == 2 ==> unfrozen(ops, who, token) == unfreezes(ops[0], who, token) + unfreezes(
            ops[1],
            who,
            token,
        ),
{
    if ops.len() == 1 {
        assert(ops =~= seq![ops[0]]);
        lemma_unfrozen_one(ops[0], who, token);
    } else if ops.len() == 2 {
        assert(ops =~= seq![ops[0]] + seq![ops[1]]);
        lemma_unfrozen_sum(seq![ops[0]], seq![ops[1]], who, token);
        lemma_unfrozen_one(ops[0], who, token);
        lemma_unfrozen_one(ops[1], who, token);
    }
}

} // verus!
