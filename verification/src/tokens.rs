//! The token ledger: receipts, and the wallet that earns and spends.

use crate::hexfmt;
use crate::hexfmt::{hex_bytes, hex_text, is_hex_text};
use crate::identity;
use crate::identity::{ed25519_accepts, ed25519_public_key, ed25519_signature};
use crate::text;
use crate::text::decimal_text;
use vstd::prelude::*;
use vstd::utf8::encode_utf8;

verus! {

/// Balance of a new wallet.
pub const STARTER_TOKENS: i64 = 100;

/// No wallet holds more than this.
pub const MAX_BALANCE: i64 = 10_000;

/// Price of a thousand generated tokens.
pub const TOKENS_PER_1K: i64 = 10;

/// Price of an hour connected.
pub const TOKENS_PER_HOUR: i64 = 1;

/// A signed record of one credit.
#[derive(Debug)]
pub struct Receipt {
    pub id: String,
    pub timestamp: i64,
    pub provider_id: String,
    pub consumer_id: String,
    pub amount: i64,
    pub memo: String,
    /// Ed25519 signature over [`Receipt::signable`], in hexadecimal.
    pub signature: String,
}

/// What a [`Receipt`] holds, as mathematical values.
pub struct ReceiptView {
    pub id: Seq<char>,
    pub timestamp: int,
    pub provider_id: Seq<char>,
    pub consumer_id: Seq<char>,
    pub amount: int,
    pub memo: Seq<char>,
    pub signature: Seq<char>,
}

impl View for Receipt {
    type V = ReceiptView;

    open spec fn view(&self) -> ReceiptView {
        ReceiptView {
            id: self.id@,
            timestamp: self.timestamp as int,
            provider_id: self.provider_id@,
            consumer_id: self.consumer_id@,
            amount: self.amount as int,
            memo: self.memo@,
            signature: self.signature@,
        }
    }
}

/// The text that is signed: the six fields but the signature, in order,
/// separated by `|`, the numbers in decimal.
pub open spec fn signable_text(r: ReceiptView) -> Seq<char> {
    r.id + seq!['|'] + decimal_text(r.timestamp) + seq!['|'] + r.provider_id + seq!['|']
        + r.consumer_id + seq!['|'] + decimal_text(r.amount) + seq!['|'] + r.memo
}

/// The bytes that are signed: the signable text in UTF-8.
pub open spec fn signable_bytes(r: ReceiptView) -> Seq<u8> {
    encode_utf8(signable_text(r))
}

/// The signature field that the holder of `secret` gives the receipt.
pub open spec fn signature_text(secret: Seq<u8>, r: ReceiptView) -> Seq<char> {
    hex_text(ed25519_signature(secret, signable_bytes(r)))
}

/// The receipt's signature field is a well-formed signature that `public`
/// accepts for the receipt's signable bytes.
pub open spec fn signed_by(r: ReceiptView, public: Seq<u8>) -> bool {
    &&& is_hex_text(r.signature)
    &&& hex_bytes(r.signature).len() == identity::SIGNATURE_LENGTH
    &&& ed25519_accepts(public, signable_bytes(r), hex_bytes(r.signature))
}

impl Clone for Receipt {
    fn clone(&self) -> (out: Receipt)
        ensures
            out@ == self@,
    {
        Receipt {
            id: self.id.clone(),
            timestamp: self.timestamp,
            provider_id: self.provider_id.clone(),
            consumer_id: self.consumer_id.clone(),
            amount: self.amount,
            memo: self.memo.clone(),
            signature: self.signature.clone(),
        }
    }
}

impl Receipt {
    /// The canonical text over which the receipt is signed.
    pub fn signable(&self) -> (s: String)
        ensures
            s@ == signable_text(self@),
    {
        let mut out: Vec<char> = Vec::new();
        text::push_str(&mut out, self.id.as_str());
        out.push('|');
        text::push_decimal(&mut out, self.timestamp);
        out.push('|');
        text::push_str(&mut out, self.provider_id.as_str());
        out.push('|');
        text::push_str(&mut out, self.consumer_id.as_str());
        out.push('|');
        text::push_decimal(&mut out, self.amount);
        out.push('|');
        text::push_str(&mut out, self.memo.as_str());
        assert(out@ =~= signable_text(self@));
        text::string_of(&out)
    }

    /// Signs the receipt with `secret`, replacing the signature field.
    pub fn sign(&mut self, secret: &[u8; 32])
        ensures
            final(self)@ == (ReceiptView {
                signature: signature_text(secret@, old(self)@),
                ..old(self)@
            }),
            signed_by(final(self)@, ed25519_public_key(secret@)),
    {
        let message = self.signable();
        let signature = identity::sign_bytes(secret, message.as_str().as_bytes());
        proof {
            hexfmt::lemma_hex_round_trip(signature@);
        }
        self.signature = hexfmt::encode(signature.as_slice());
    }

    /// Whether the signature field is a signature of this receipt that the
    /// public key `public` accepts.
    pub fn verify(&self, public: &[u8; 32]) -> (ok: bool)
        ensures
            ok == signed_by(self@, public@),
    {
        match hexfmt::decode(self.signature.as_str()) {
            Ok(bytes) => {
                if bytes.len() != 64 {
                    return false;
                }
                let mut signature: [u8; 64] = [0u8; 64];
                let mut i: usize = 0;
                while i < 64
                    invariant
                        i <= 64,
                        bytes@.len() == 64,
                        forall|j: int| 0 <= j < i ==> signature@[j] == bytes@[j],
                    decreases 64 - i,
                {
                    signature[i] = bytes[i];
                    i += 1;
                }
                assert(signature@ =~= bytes@);
                let message = self.signable();
                identity::verify_bytes(public, message.as_str().as_bytes(), &signature)
            },
            Err(_) => false,
        }
    }
}

/// What a wallet file holds. The key is stored in hexadecimal.
#[derive(Debug)]
pub struct WalletData {
    pub node_id: String,
    pub signing_key_hex: String,
    pub balance: i64,
    pub earned_total: i64,
    pub spent_total: i64,
    pub receipts: Vec<Receipt>,
}

/// Why a wallet operation was refused.
#[derive(Debug, Clone, Copy, PartialEq, Eq, Structural)]
pub enum WalletError {
    /// The stored key is not hexadecimal text.
    InvalidKeyEncoding,
    /// The stored key is not 32 bytes long.
    InvalidKeyLength,
    /// The stored balance, totals and receipts contradict each other or
    /// leave the allowed range.
    InconsistentLedger,
    /// More was to be spent than the wallet holds.
    InsufficientBalance { have: i64, need: i64 },
    /// A negative amount was to be spent.
    NegativeAmount,
    /// The lifetime total of earnings cannot take the credit.
    LedgerFull,
}

/// What an error says to the user.
pub open spec fn error_text(e: WalletError) -> Seq<char> {
    match e {
        WalletError::InvalidKeyEncoding => "Invalid key encoding"@,
        WalletError::InvalidKeyLength => "Invalid key length"@,
        WalletError::InconsistentLedger => "Inconsistent ledger"@,
        WalletError::InsufficientBalance { have, need } => "Insufficient tokens: have "@
            + decimal_text(have as int) + ", need "@ + decimal_text(need as int),
        WalletError::NegativeAmount => "Negative amount"@,
        WalletError::LedgerFull => "Ledger full"@,
    }
}

impl WalletError {
    /// What the error says to the user.
    pub fn message(&self) -> (s: String)
        ensures
            s@ == error_text(*self),
    {
        match self {
            WalletError::InvalidKeyEncoding => "Invalid key encoding".to_owned(),
            WalletError::InvalidKeyLength => "Invalid key length".to_owned(),
            WalletError::InconsistentLedger => "Inconsistent ledger".to_owned(),
            WalletError::InsufficientBalance { have, need } => {
                let mut out: Vec<char> = Vec::new();
                text::push_str(&mut out, "Insufficient tokens: have ");
                text::push_decimal(&mut out, *have);
                text::push_str(&mut out, ", need ");
                text::push_decimal(&mut out, *need);
                assert(out@ =~= error_text(*self));
                text::string_of(&out)
            },
            WalletError::NegativeAmount => "Negative amount".to_owned(),
            WalletError::LedgerFull => "Ledger full".to_owned(),
        }
    }
}

/// The node's ledger: balance, lifetime totals and the receipt of every
/// credit, with the key that signs them.
pub struct Wallet {
    node_id: String,
    signing_key: [u8; 32],
    balance: i64,
    earned_total: i64,
    spent_total: i64,
    receipts: Vec<Receipt>,
}

/// What a [`Wallet`] holds, as mathematical values.
pub struct WalletView {
    pub node_id: Seq<char>,
    pub signing_key: Seq<u8>,
    pub balance: int,
    pub earned_total: int,
    pub spent_total: int,
    pub receipts: Seq<ReceiptView>,
}

/// The largest lifetime total of earnings a wallet records. With it the
/// total spent fits its field too.
pub const MAX_EARNED: i64 = i64::MAX - STARTER_TOKENS;

/// The views of a sequence of receipts.
pub open spec fn receipt_views(receipts: Seq<Receipt>) -> Seq<ReceiptView> {
    Seq::new(receipts.len(), |i: int| receipts[i]@)
}

/// The sum of the amounts that the receipts record.
pub open spec fn credited_total(receipts: Seq<ReceiptView>) -> int
    decreases receipts.len(),
{
    if receipts.len() == 0 {
        0
    } else {
        credited_total(receipts.drop_last()) + receipts.last().amount
    }
}

/// The invariant of the ledger: the balance is within its bounds, the
/// totals never went down, every credit has its receipt, and the balance
/// is the starter balance plus what the receipts record minus what was
/// spent.
pub open spec fn ledger_consistent(w: WalletView) -> bool {
    &&& 0 <= w.balance <= MAX_BALANCE
    &&& 0 <= w.spent_total
    &&& 0 <= w.earned_total <= MAX_EARNED
    &&& forall|i: int| 0 <= i < w.receipts.len() ==> (#[trigger] w.receipts[i]).amount >= 0
    &&& w.earned_total == credited_total(w.receipts)
    &&& w.balance == STARTER_TOKENS + w.earned_total - w.spent_total
}

/// What is credited when `requested` is earned at balance `balance`: the
/// request, cut down to what the balance may still grow, and never
/// negative.
pub open spec fn credit(balance: int, requested: int) -> int {
    let room = MAX_BALANCE - balance;
    if requested <= 0 || room <= 0 {
        0
    } else if requested <= room {
        requested
    } else {
        room
    }
}

/// A wallet that was just made for the key `secret`.
pub open spec fn fresh_wallet(secret: Seq<u8>) -> WalletView {
    WalletView {
        node_id: identity::node_id_text(ed25519_public_key(secret)),
        signing_key: secret,
        balance: STARTER_TOKENS as int,
        earned_total: 0,
        spent_total: 0,
        receipts: Seq::empty(),
    }
}

/// The wallet that a wallet file describes.
pub open spec fn stored_wallet(data: WalletData) -> WalletView {
    WalletView {
        node_id: data.node_id@,
        signing_key: hex_bytes(data.signing_key_hex@),
        balance: data.balance as int,
        earned_total: data.earned_total as int,
        spent_total: data.spent_total as int,
        receipts: receipt_views(data.receipts@),
    }
}

/// What comes of loading a wallet file: the wallet it describes, or the
/// first thing that is wrong with it. The key must be hexadecimal text, it
/// must be 32 bytes long, and the ledger must be consistent.
pub open spec fn load_outcome(data: WalletData) -> Result<WalletView, WalletError> {
    if !is_hex_text(data.signing_key_hex@) {
        Err(WalletError::InvalidKeyEncoding)
    } else if hex_bytes(data.signing_key_hex@).len() != identity::KEY_LENGTH {
        Err(WalletError::InvalidKeyLength)
    } else if !ledger_consistent(stored_wallet(data)) {
        Err(WalletError::InconsistentLedger)
    } else {
        Ok(stored_wallet(data))
    }
}

/// The receipt that wallet `w` issues for a credit: the wallet's node is
/// the provider, the amount is what is credited, and the wallet's key
/// signs.
pub open spec fn issued_receipt(
    w: WalletView,
    consumer_id: Seq<char>,
    requested: int,
    memo: Seq<char>,
    id: Seq<char>,
    timestamp: int,
) -> ReceiptView {
    let unsigned = ReceiptView {
        id,
        timestamp,
        provider_id: w.node_id,
        consumer_id,
        amount: credit(w.balance, requested),
        memo,
        signature: Seq::empty(),
    };
    ReceiptView { signature: signature_text(w.signing_key, unsigned), ..unsigned }
}

/// The wallet after the credit that `receipt` records.
pub open spec fn after_credit(w: WalletView, receipt: ReceiptView) -> WalletView {
    WalletView {
        balance: w.balance + receipt.amount,
        earned_total: w.earned_total + receipt.amount,
        receipts: w.receipts.push(receipt),
        ..w
    }
}

/// The wallet after `amount` was spent.
pub open spec fn after_spend(w: WalletView, amount: int) -> WalletView {
    WalletView { balance: w.balance - amount, spent_total: w.spent_total + amount, ..w }
}

/// Whether the lifetime total of earnings can take the credit of
/// `requested`.
pub open spec fn can_credit(w: WalletView, requested: int) -> bool {
    w.earned_total + credit(w.balance, requested) <= MAX_EARNED
}

/// One call to earn: what the caller asks, and the identifier and time that
/// the receipt gets.
pub struct EarnRequest {
    pub consumer_id: Seq<char>,
    pub requested: int,
    pub memo: Seq<char>,
    pub id: Seq<char>,
    pub timestamp: int,
}

/// The wallet after one call to earn.
pub open spec fn after_earning(w: WalletView, q: EarnRequest) -> WalletView {
    if can_credit(w, q.requested) {
        after_credit(w, issued_receipt(w, q.consumer_id, q.requested, q.memo, q.id, q.timestamp))
    } else {
        w
    }
}

/// The wallet after a sequence of calls to earn, first call first.
pub open spec fn after_earning_all(w: WalletView, calls: Seq<EarnRequest>) -> WalletView
    decreases calls.len(),
{
    if calls.len() == 0 {
        w
    } else {
        after_earning(after_earning_all(w, calls.drop_last()), calls.last())
    }
}

/// The wallet after one call to spend `amount`.
pub open spec fn after_spending(w: WalletView, amount: int) -> WalletView {
    if 0 <= amount <= w.balance {
        after_spend(w, amount)
    } else {
        w
    }
}

/// A new wallet is consistent.
pub proof fn lemma_fresh_wallet_consistent(secret: Seq<u8>)
    ensures
        ledger_consistent(fresh_wallet(secret)),
{
}

/// One call to earn keeps the ledger consistent: the balance stays within
/// its bounds and grows by exactly what the total earned grows, which is
/// the amount on the new receipt if there is one; nothing is spent.
pub proof fn lemma_earning_keeps_ledger(w: WalletView, q: EarnRequest)
    requires
        ledger_consistent(w),
    ensures
        ledger_consistent(after_earning(w, q)),
        after_earning(w, q).balance <= MAX_BALANCE,
        after_earning(w, q).earned_total >= w.earned_total,
        after_earning(w, q).balance - w.balance == after_earning(w, q).earned_total
            - w.earned_total,
        can_credit(w, q.requested) ==> {
            &&& after_earning(w, q).receipts.len() == w.receipts.len() + 1
            &&& after_earning(w, q).receipts.last().amount == credit(w.balance, q.requested)
            &&& after_earning(w, q).balance == w.balance + credit(w.balance, q.requested)
        },
        after_earning(w, q).spent_total == w.spent_total,
{
    if can_credit(w, q.requested) {
        let receipt = issued_receipt(w, q.consumer_id, q.requested, q.memo, q.id, q.timestamp);
        lemma_credited_total_push(w.receipts, receipt);
    }
}

/// Whatever is earned, in whatever order and however often, the balance
/// never passes [`MAX_BALANCE`], and it is the starter balance plus the
/// amounts that the receipts record minus the total spent.
pub proof fn lemma_earning_never_exceeds_max(w: WalletView, calls: Seq<EarnRequest>)
    requires
        ledger_consistent(w),
    ensures
        ledger_consistent(after_earning_all(w, calls)),
        0 <= after_earning_all(w, calls).balance <= MAX_BALANCE,
        after_earning_all(w, calls).balance == STARTER_TOKENS + credited_total(
            after_earning_all(w, calls).receipts,
        ) - after_earning_all(w, calls).spent_total,
        after_earning_all(w, calls).earned_total == credited_total(
            after_earning_all(w, calls).receipts,
        ),
        after_earning_all(w, calls).earned_total >= w.earned_total,
        after_earning_all(w, calls).spent_total == w.spent_total,
    decreases calls.len(),
{
    if calls.len() > 0 {
        lemma_earning_never_exceeds_max(w, calls.drop_last());
        lemma_earning_keeps_ledger(after_earning_all(w, calls.drop_last()), calls.last());
    }
}

/// Spending a positive amount changes the wallet exactly when the balance
/// covers it; then balance and total spent move by the amount, and
/// otherwise neither moves. The ledger stays consistent either way.
pub proof fn lemma_spend_changes_iff_covered(w: WalletView, amount: int)
    requires
        ledger_consistent(w),
        amount > 0,
    ensures
        after_spending(w, amount) != w <==> amount <= w.balance,
        amount <= w.balance ==> {
            &&& after_spending(w, amount).balance == w.balance - amount
            &&& after_spending(w, amount).spent_total == w.spent_total + amount
        },
        amount > w.balance ==> {
            &&& after_spending(w, amount).balance == w.balance
            &&& after_spending(w, amount).spent_total == w.spent_total
        },
        ledger_consistent(after_spending(w, amount)),
{
}

/// The total of the receipts with one more receipt.
pub proof fn lemma_credited_total_push(receipts: Seq<ReceiptView>, receipt: ReceiptView)
    ensures
        credited_total(receipts.push(receipt)) == credited_total(receipts) + receipt.amount,
{
    assert(receipts.push(receipt).drop_last() =~= receipts);
}

/// Receipts that record no negative amount total at least as much as any
/// of their prefixes.
pub proof fn lemma_credited_total_prefix(receipts: Seq<ReceiptView>, n: int)
    requires
        0 <= n <= receipts.len(),
        forall|i: int| 0 <= i < receipts.len() ==> (#[trigger] receipts[i]).amount >= 0,
    ensures
        credited_total(receipts.take(n)) <= credited_total(receipts),
    decreases receipts.len() - n,
{
    if n == receipts.len() {
        assert(receipts.take(n) =~= receipts);
    } else {
        lemma_credited_total_prefix(receipts, n + 1);
        assert(receipts.take(n + 1).drop_last() =~= receipts.take(n));
        assert(receipts.take(n + 1).last() == receipts[n]);
    }
}

impl View for Wallet {
    type V = WalletView;

    closed spec fn view(&self) -> WalletView {
        WalletView {
            node_id: self.node_id@,
            signing_key: self.signing_key@,
            balance: self.balance as int,
            earned_total: self.earned_total as int,
            spent_total: self.spent_total as int,
            receipts: receipt_views(self.receipts@),
        }
    }
}

/// What is credited when `requested` is earned at balance `balance`.
fn credit_of(balance: i64, requested: i64) -> (credited: i64)
    requires
        0 <= balance <= MAX_BALANCE,
    ensures
        credited == credit(balance as int, requested as int),
{
    let room = MAX_BALANCE - balance;
    if requested <= 0 || room <= 0 {
        0
    } else if requested <= room {
        requested
    } else {
        room
    }
}

/// Whether the receipts record no negative amount and total `expected`.
fn receipts_total_is(receipts: &Vec<Receipt>, expected: i64) -> (ok: bool)
    requires
        0 <= expected,
    ensures
        ok == {
            &&& forall|i: int|
                0 <= i < receipts@.len() ==> (#[trigger] receipt_views(receipts@)[i]).amount >= 0
            &&& credited_total(receipt_views(receipts@)) == expected
        },
{
    let ghost views = receipt_views(receipts@);
    let mut total: i64 = 0;
    let mut i: usize = 0;
    while i < receipts.len()
        invariant
            i <= receipts.len(),
            views == receipt_views(receipts@),
            0 <= total <= expected,
            total == credited_total(views.take(i as int)),
            forall|j: int| 0 <= j < i ==> (#[trigger] views[j]).amount >= 0,
        decreases receipts.len() - i,
    {
        let amount = receipts[i].amount;
        assert(views[i as int].amount == amount);
        proof {
            assert(views.take(i + 1).drop_last() =~= views.take(i as int));
            assert(views.take(i + 1).last() == views[i as int]);
        }
        if amount < 0 {
            return false;
        }
        if amount > expected - total {
            proof {
                if forall|j: int| 0 <= j < views.len() ==> (#[trigger] views[j]).amount >= 0 {
                    lemma_credited_total_prefix(views, i + 1);
                }
            }
            return false;
        }
        total = total + amount;
        i += 1;
    }
    assert(views.take(i as int) =~= views);
    total == expected
}

/// The shape of a receipt identifier: 36 characters, hyphens after the
/// 8th, 12th, 16th and 20th digit, lower-case hexadecimal digits elsewhere.
pub open spec fn is_receipt_id(id: Seq<char>) -> bool {
    &&& id.len() == 36
    &&& forall|i: int|
        0 <= i < 36 ==> if i == 8 || i == 13 || i == 18 || i == 23 {
            id[i] == '-'
        } else {
            ('0' <= #[trigger] id[i] && id[i] <= '9') || ('a' <= id[i] && id[i] <= 'f')
        }
}

/// A new random identifier (`Uuid::new_v4`, as text). Only its shape is
/// claimed: which identifier comes out is left to chance.
#[verifier::external_body]
fn fresh_receipt_id() -> (id: String)
    ensures
        is_receipt_id(id@),
{
    uuid::Uuid::new_v4().to_string()
}

/// The system clock in seconds since the Unix epoch (`Utc::now`, then
/// `DateTime::timestamp`). Nothing is claimed of the value. `chrono` stops
/// the program on a clock that is set before the epoch.
#[verifier::external_body]
fn unix_time_now() -> (seconds: i64) {
    chrono::Utc::now().timestamp()
}

impl Wallet {
    #[verifier::type_invariant]
    spec fn consistent(self) -> bool {
        ledger_consistent(self@)
    }

    /// A wallet without history, to stand in while another is rebuilt: no
    /// identifier, a key of zeros, the starter balance and nothing earned
    /// or spent.
    fn blank() -> (wallet: Wallet)
        ensures
            wallet@ == (WalletView {
                node_id: Seq::empty(),
                signing_key: Seq::new(identity::KEY_LENGTH as nat, |i: int| 0u8),
                balance: STARTER_TOKENS as int,
                earned_total: 0,
                spent_total: 0,
                receipts: Seq::empty(),
            }),
            ledger_consistent(wallet@),
    {
        let wallet = Wallet {
            node_id: String::new(),
            signing_key: [0u8; 32],
            balance: STARTER_TOKENS,
            earned_total: 0,
            spent_total: 0,
            receipts: Vec::new(),
        };
        assert(wallet@.receipts =~= Seq::empty());
        assert(wallet@.signing_key =~= Seq::new(identity::KEY_LENGTH as nat, |i: int| 0u8));
        wallet
    }

    /// A new wallet for the key `secret`: the starter balance, no history,
    /// and the identifier derived from the key.
    pub fn create(secret: [u8; 32]) -> (wallet: Wallet)
        ensures
            wallet@ == fresh_wallet(secret@),
            ledger_consistent(wallet@),
    {
        let public = identity::public_key_of(&secret);
        let node_id = identity::node_id_of(&public);
        let wallet = Wallet {
            node_id,
            signing_key: secret,
            balance: STARTER_TOKENS,
            earned_total: 0,
            spent_total: 0,
            receipts: Vec::new(),
        };
        assert(wallet@.receipts =~= Seq::empty());
        wallet
    }

    /// The wallet that a wallet file describes, if the file is sound: the
    /// key must be 32 bytes in hexadecimal, and the ledger must be
    /// consistent.
    pub fn load(data: WalletData) -> (r: Result<Wallet, WalletError>)
        ensures
            match r {
                Ok(wallet) => load_outcome(data) == Ok::<WalletView, WalletError>(wallet@),
                Err(e) => load_outcome(data) == Err::<WalletView, WalletError>(e),
            },
            r is Ok ==> ledger_consistent(r->Ok_0@),
    {
        let bytes = match hexfmt::decode(data.signing_key_hex.as_str()) {
            Ok(bytes) => bytes,
            Err(_) => {
                return Err(WalletError::InvalidKeyEncoding);
            },
        };
        if bytes.len() != 32 {
            return Err(WalletError::InvalidKeyLength);
        }
        let mut signing_key: [u8; 32] = [0u8; 32];
        let mut i: usize = 0;
        while i < 32
            invariant
                i <= 32,
                bytes@.len() == 32,
                forall|j: int| 0 <= j < i ==> signing_key@[j] == bytes@[j],
            decreases 32 - i,
        {
            signing_key[i] = bytes[i];
            i += 1;
        }
        assert(signing_key@ =~= bytes@);
        if data.balance < 0 || data.balance > MAX_BALANCE || data.spent_total < 0
            || data.earned_total < 0 || data.earned_total > MAX_EARNED {
            return Err(WalletError::InconsistentLedger);
        }
        if data.balance - STARTER_TOKENS != data.earned_total - data.spent_total {
            return Err(WalletError::InconsistentLedger);
        }
        if !receipts_total_is(&data.receipts, data.earned_total) {
            return Err(WalletError::InconsistentLedger);
        }
        Ok(
            Wallet {
                node_id: data.node_id,
                signing_key,
                balance: data.balance,
                earned_total: data.earned_total,
                spent_total: data.spent_total,
                receipts: data.receipts,
            },
        )
    }

    /// The stored wallet where there is one, else a new wallet with a
    /// key of its own. A stored wallet is held to what [`Wallet::load`]
    /// asks; a new one is as [`Wallet::create`] makes it.
    pub fn load_or_create(stored: Option<WalletData>) -> (r: Result<Wallet, WalletError>)
        ensures
            match stored {
                Some(data) => match r {
                    Ok(wallet) => load_outcome(data) == Ok::<WalletView, WalletError>(wallet@),
                    Err(e) => load_outcome(data) == Err::<WalletView, WalletError>(e),
                },
                None => r matches Ok(wallet) && wallet@ == fresh_wallet(wallet@.signing_key),
            },
            r is Ok ==> ledger_consistent(r->Ok_0@),
    {
        match stored {
            Some(data) => Wallet::load(data),
            None => Ok(Wallet::create(identity::fresh_secret_key())),
        }
    }

    /// The current balance.
    pub fn balance(&self) -> (balance: i64)
        ensures
            balance == self@.balance,
            0 <= balance <= MAX_BALANCE,
    {
        proof {
            use_type_invariant(self);
        }
        self.balance
    }

    /// The identifier of the node that owns the wallet.
    pub fn node_id(&self) -> (id: String)
        ensures
            id@ == self@.node_id,
    {
        self.node_id.clone()
    }

    /// The public key under which the wallet's receipts verify.
    pub fn public_key(&self) -> (public: [u8; 32])
        ensures
            public@ == ed25519_public_key(self@.signing_key),
    {
        identity::public_key_of(&self.signing_key)
    }

    /// Balance, total earned and total spent, in this order.
    pub fn stats(&self) -> (stats: (i64, i64, i64))
        ensures
            stats.0 == self@.balance,
            stats.1 == self@.earned_total,
            stats.2 == self@.spent_total,
            ledger_consistent(self@),
    {
        proof {
            use_type_invariant(self);
        }
        (self.balance, self.earned_total, self.spent_total)
    }

    /// The record to store: from it [`Wallet::load`] makes this wallet
    /// again.
    pub fn snapshot(&self) -> (data: WalletData)
        ensures
            data.node_id@ == self@.node_id,
            data.signing_key_hex@ == hex_text(self@.signing_key),
            data.balance == self@.balance,
            data.earned_total == self@.earned_total,
            data.spent_total == self@.spent_total,
            receipt_views(data.receipts@) == self@.receipts,
            load_outcome(data) == Ok::<WalletView, WalletError>(self@),
    {
        proof {
            use_type_invariant(self);
            hexfmt::lemma_hex_round_trip(self.signing_key@);
        }
        let mut receipts: Vec<Receipt> = Vec::new();
        let mut i: usize = 0;
        while i < self.receipts.len()
            invariant
                i <= self.receipts.len(),
                receipt_views(receipts@) == receipt_views(self.receipts@).take(i as int),
            decreases self.receipts.len() - i,
        {
            let ghost before = receipts@;
            receipts.push(self.receipts[i].clone());
            assert(receipt_views(receipts@) =~= receipt_views(before).push(
                self.receipts@[i as int]@,
            ));
            assert(receipt_views(self.receipts@).take(i + 1) =~= receipt_views(
                self.receipts@,
            ).take(i as int).push(self.receipts@[i as int]@));
            i += 1;
        }
        assert(receipt_views(self.receipts@).take(i as int) =~= receipt_views(self.receipts@));
        WalletData {
            node_id: self.node_id.clone(),
            signing_key_hex: hexfmt::encode(self.signing_key.as_slice()),
            balance: self.balance,
            earned_total: self.earned_total,
            spent_total: self.spent_total,
            receipts,
        }
    }

    /// Credits what [`credit`] allows of `amount`, under the given receipt
    /// identifier and time, and returns the signed receipt of it. The
    /// wallet is left as it was, and `LedgerFull` returned, only where the
    /// total earned would pass [`MAX_EARNED`].
    pub fn record_earned_as(
        &mut self,
        consumer_id: &str,
        amount: i64,
        memo: &str,
        id: String,
        timestamp: i64,
    ) -> (r: Result<Receipt, WalletError>)
        ensures
            ledger_consistent(old(self)@),
            ledger_consistent(final(self)@),
            final(self)@ == after_earning(
                old(self)@,
                (EarnRequest {
                    consumer_id: consumer_id@,
                    requested: amount as int,
                    memo: memo@,
                    id: id@,
                    timestamp: timestamp as int,
                }),
            ),
            match r {
                Ok(receipt) => {
                    &&& can_credit(old(self)@, amount as int)
                    &&& receipt@ == issued_receipt(
                        old(self)@,
                        consumer_id@,
                        amount as int,
                        memo@,
                        id@,
                        timestamp as int,
                    )
                    &&& final(self)@ == after_credit(old(self)@, receipt@)
                    &&& signed_by(receipt@, ed25519_public_key(old(self)@.signing_key))
                },
                Err(e) => {
                    &&& !can_credit(old(self)@, amount as int)
                    &&& e == WalletError::LedgerFull
                    &&& final(self)@ == old(self)@
                },
            },
    {
        proof {
            use_type_invariant(&*self);
        }
        let credited = credit_of(self.balance, amount);
        if credited > MAX_EARNED - self.earned_total {
            return Err(WalletError::LedgerFull);
        }
        let mut receipt = Receipt {
            id,
            timestamp,
            provider_id: self.node_id.clone(),
            consumer_id: consumer_id.to_owned(),
            amount: credited,
            memo: memo.to_owned(),
            signature: String::new(),
        };
        let ghost unsigned = receipt@;
        receipt.sign(&self.signing_key);
        assert(signable_text(receipt@) == signable_text(unsigned));
        let ghost before = self@;
        let mut taken = Wallet::blank();
        core::mem::swap(self, &mut taken);
        let Wallet { node_id, signing_key, balance, earned_total, spent_total, receipts } = taken;
        let mut receipts = receipts;
        receipts.push(receipt.clone());
        proof {
            lemma_credited_total_push(before.receipts, receipt@);
            assert(receipt_views(receipts@) =~= before.receipts.push(receipt@));
        }
        *self = Wallet {
            node_id,
            signing_key,
            balance: balance + credited,
            earned_total: earned_total + credited,
            spent_total,
            receipts,
        };
        Ok(receipt)
    }

    /// Signs and records a receipt as the provider: credits what
    /// [`credit`] allows of `amount`. The receipt gets a new identifier
    /// and the time of the system clock.
    pub fn record_earned(&mut self, consumer_id: &str, amount: i64, memo: &str) -> (r: Result<
        Receipt,
        WalletError,
    >)
        ensures
            ledger_consistent(old(self)@),
            ledger_consistent(final(self)@),
            match r {
                Ok(receipt) => {
                    &&& can_credit(old(self)@, amount as int)
                    &&& is_receipt_id(receipt@.id)
                    &&& receipt@ == issued_receipt(
                        old(self)@,
                        consumer_id@,
                        amount as int,
                        memo@,
                        receipt@.id,
                        receipt@.timestamp,
                    )
                    &&& final(self)@ == after_credit(old(self)@, receipt@)
                    &&& signed_by(receipt@, ed25519_public_key(old(self)@.signing_key))
                },
                Err(e) => {
                    &&& !can_credit(old(self)@, amount as int)
                    &&& e == WalletError::LedgerFull
                    &&& final(self)@ == old(self)@
                },
            },
    {
        let id = fresh_receipt_id();
        let timestamp = unix_time_now();
        self.record_earned_as(consumer_id, amount, memo, id, timestamp)
    }

    /// Deducts `amount` for a request that `provider_id` served. Nothing
    /// changes where the amount is negative or more than the balance.
    pub fn spend(&mut self, provider_id: &str, amount: i64, memo: &str) -> (r: Result<
        (),
        WalletError,
    >)
        ensures
            ledger_consistent(old(self)@),
            ledger_consistent(final(self)@),
            final(self)@ == after_spending(old(self)@, amount as int),
            match r {
                Ok(_) => {
                    &&& 0 <= amount <= old(self)@.balance
                    &&& final(self)@ == after_spend(old(self)@, amount as int)
                },
                Err(e) => {
                    &&& final(self)@ == old(self)@
                    &&& if amount < 0 {
                        e == WalletError::NegativeAmount
                    } else {
                        &&& amount > old(self)@.balance
                        &&& e == (WalletError::InsufficientBalance {
                            have: old(self)@.balance as i64,
                            need: amount,
                        })
                    }
                },
            },
    {
        proof {
            use_type_invariant(&*self);
        }
        if amount < 0 {
            return Err(WalletError::NegativeAmount);
        }
        if self.balance < amount {
            return Err(WalletError::InsufficientBalance { have: self.balance, need: amount });
        }
        let mut taken = Wallet::blank();
        core::mem::swap(self, &mut taken);
        let Wallet { node_id, signing_key, balance, earned_total, spent_total, receipts } = taken;
        *self = Wallet {
            node_id,
            signing_key,
            balance: balance - amount,
            earned_total,
            spent_total: spent_total + amount,
            receipts,
        };
        Ok(())
    }
}

} // verus!
