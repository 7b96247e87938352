//! The programs that a test network starts with.

use crate::types::Pubkey;
use vstd::prelude::*;

verus! {

/// An account.
#[derive(Debug)]
pub struct Account {
    pub lamports: u64,
    pub data: Vec<u8>,
    pub owner: Pubkey,
    pub executable: bool,
    pub rent_epoch: u64,
}

/// `TokenkegQfeZyiNwAJbNbGKPFXCWuBvf9Ss623VQ5DA`
pub open spec fn spl_token() -> Seq<u8> {
    seq![
        6u8, 221, 246, 225, 215, 101, 161, 147, 217, 203, 225, 70, 206, 235, 121, 172, 28, 180, 133,
        237, 95, 91, 55, 145, 58, 140, 245, 133, 126, 255, 0, 169,
    ]
}

/// `Memo1UhkJRfHyvLMcVucJwxXeuD728EqVDDwQDxFMNo`
pub open spec fn spl_memo_v1() -> Seq<u8> {
    seq![
        5u8, 74, 83, 80, 248, 93, 200, 130, 214, 20, 165, 86, 114, 120, 138, 41, 109, 223, 30, 171,
        171, 208, 166, 6, 120, 136, 73, 50, 244, 238, 246, 160,
    ]
}

/// `MemoSq4gqABAXKb96qnH8TysNcWxMyWCqXgDLGmfcHr`
pub open spec fn spl_memo_v2() -> Seq<u8> {
    seq![
        5u8, 74, 83, 90, 153, 41, 33, 6, 77, 36, 232, 113, 96, 218, 56, 124, 124, 53, 181, 221, 188,
        146, 187, 129, 228, 31, 168, 64, 65, 5, 68, 141,
    ]
}

/// `ATokenGPvbdGVxr1b2hvZbsiqW5xWH25efTNsLJA8knL`
pub open spec fn spl_associated_token_account() -> Seq<u8> {
    seq![
        140u8, 151, 37, 143, 78, 36, 137, 241, 187, 61, 16, 41, 20, 142, 13, 131, 11, 90, 19, 153,
        218, 255, 16, 132, 4, 142, 123, 216, 219, 233, 248, 89,
    ]
}

/// The addresses of the programs: token, memo in its two versions, and associated token account.
pub fn spl_program_ids() -> (r: [Pubkey; 4])
    ensures
        r@[0].0@ == spl_token(),
        r@[1].0@ == spl_memo_v1(),
        r@[2].0@ == spl_memo_v2(),
        r@[3].0@ == spl_associated_token_account(),
{
    let token: [u8; 32] = [
        6, 221, 246, 225, 215, 101, 161, 147, 217, 203, 225, 70, 206, 235, 121, 172, 28, 180, 133,
        237, 95, 91, 55, 145, 58, 140, 245, 133, 126, 255, 0, 169,
    ];
    assert(token@ =~= spl_token());
    let memo_v1: [u8; 32] = [
        5, 74, 83, 80, 248, 93, 200, 130, 214, 20, 165, 86, 114, 120, 138, 41, 109, 223, 30, 171,
        171, 208, 166, 6, 120, 136, 73, 50, 244, 238, 246, 160,
    ];
    assert(memo_v1@ =~= spl_memo_v1());
    let memo_v2: [u8; 32] = [
        5, 74, 83, 90, 153, 41, 33, 6, 77, 36, 232, 113, 96, 218, 56, 124, 124, 53, 181, 221, 188,
        146, 187, 129, 228, 31, 168, 64, 65, 5, 68, 141,
    ];
    assert(memo_v2@ =~= spl_memo_v2());
    let associated: [u8; 32] = [
        140, 151, 37, 143, 78, 36, 137, 241, 187, 61, 16, 41, 20, 142, 13, 131, 11, 90, 19, 153,
        218, 255, 16, 132, 4, 142, 123, 216, 219, 233, 248, 89,
    ];
    assert(associated@ =~= spl_associated_token_account());
    [Pubkey(token), Pubkey(memo_v1), Pubkey(memo_v2), Pubkey(associated)]
}

/// A program as it is compiled, with the balance that keeps it free of rent.
#[derive(Debug)]
pub struct ProgramElf {
    pub elf: Vec<u8>,
    pub minimum_balance: u64,
}

/// An executable account that holds a program.
pub open spec fn holds_program(
    account: Account,
    program: ProgramElf,
    bpf_loader: Pubkey,
) -> bool {
    &&& account.lamports == (if program.minimum_balance < 1 {
        program.minimum_balance
    } else {
        1
    })
    &&& account.data@ == program.elf@
    &&& account.owner == bpf_loader
    &&& account.executable
    &&& account.rent_epoch == 0
}

/// The accounts of the programs, each with its address. They are given a lamport, or none where no
/// balance is needed to be free of rent.
pub fn spl_programs(programs: &[ProgramElf; 4], bpf_loader: &Pubkey) -> (r: Vec<(Pubkey, Account)>)
    ensures
        r@.len() == 4,
        r@[0].0.0@ == spl_token(),
        r@[1].0.0@ == spl_memo_v1(),
        r@[2].0.0@ == spl_memo_v2(),
        r@[3].0.0@ == spl_associated_token_account(),
        forall|i: int|
            0 <= i < 4 ==> holds_program((#[trigger] r@[i]).1, programs@[i], *bpf_loader),
{
    let ids = spl_program_ids();
    let mut r: Vec<(Pubkey, Account)> = Vec::new();
    let mut i: usize = 0;
    while i < 4
        invariant
            i <= 4,
            r@.len() == i,
            forall|j: int| 0 <= j < i ==> (#[trigger] r@[j]).0 == ids@[j],
            forall|j: int|
                0 <= j < i ==> holds_program((#[trigger] r@[j]).1, programs@[j], *bpf_loader),
        decreases 4 - i,
    {
        let lamports: u64 = if programs[i].minimum_balance < 1 {
            programs[i].minimum_balance
        } else {
            1
        };
        let account = Account {
            lamports,
            data: copy_bytes(&programs[i].elf),
            owner: *bpf_loader,
            executable: true,
            rent_epoch: 0,
        };
        r.push((ids[i], account));
        i = i + 1;
    }
    assert(r@[0].0 == ids@[0] && r@[1].0 == ids@[1] && r@[2].0 == ids@[2] && r@[3].0 == ids@[3]);
    r
}

fn copy_bytes(bytes: &Vec<u8>) -> (r: Vec<u8>)
    ensures
        r@ == bytes@,
{
    let mut r: Vec<u8> = Vec::new();
    let mut i: usize = 0;
    while i < bytes.len()
        invariant
            i <= bytes@.len(),
            r@ == bytes@.take(i as int),
        decreases bytes@.len() - i,
    {
        r.push(bytes[i]);
        i = i + 1;
        assert(r@ =~= bytes@.take(i as int));
    }
    assert(bytes@.take(i as int) =~= bytes@);
    r
}

/// Each program is in an executable account of the loader, as it was compiled, under its own address.
pub proof fn law_programs_are_in_their_accounts(
    programs: &[ProgramElf; 4],
    bpf_loader: &Pubkey,
    ids: [Pubkey; 4],
    r: Vec<(Pubkey, Account)>,
    i: int,
    j: int,
)
    requires
        call_ensures(spl_program_ids, (), ids),
        call_ensures(spl_programs, (programs, bpf_loader), r),
        0 <= i < 4,
        0 <= j < 4,
    ensures
        r@.len() == 4,
        r@[i].0.0@ == ids@[i].0@,
        i != j ==> r@[i].0.0@ != r@[j].0.0@,
        r@[i].1.data@ == programs@[i].elf@,
        r@[i].1.owner == *bpf_loader,
        r@[i].1.executable,
        r@[i].1.lamports <= 1,
        r@[i].1.lamports <= programs@[i].minimum_balance,
        programs@[i].minimum_balance >= 1 ==> r@[i].1.lamports == 1,
{
    assert(holds_program(r@[i].1, programs@[i], *bpf_loader));
    assert(spl_token()[0] == 6);
    assert(spl_memo_v1()[0] == 5 && spl_memo_v1()[3] == 80);
    assert(spl_memo_v2()[0] == 5 && spl_memo_v2()[3] == 90);
    assert(spl_associated_token_account()[0] == 140);
}

} // verus!
