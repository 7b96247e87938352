use solana_validator::signers::{Signature, Signer, SignerError, Signers};
use solana_validator::types::Pubkey;

struct Foo;
impl Signer for Foo {
    fn has_pubkey(&self, _r: Result<Pubkey, SignerError>) -> bool {
        true
    }
    fn signs(&self, _message: &[u8], _r: Result<Signature, SignerError>) -> bool {
        true
    }
    fn try_pubkey(&self) -> Result<Pubkey, SignerError> {
        Ok(Pubkey([0; 32]))
    }
    fn try_sign_message(&self, _message: &[u8]) -> Result<Signature, SignerError> {
        Ok(Signature::default())
    }
}

struct Bar;
impl Signer for Bar {
    fn has_pubkey(&self, _r: Result<Pubkey, SignerError>) -> bool {
        true
    }
    fn signs(&self, _message: &[u8], _r: Result<Signature, SignerError>) -> bool {
        true
    }
    fn try_pubkey(&self) -> Result<Pubkey, SignerError> {
        Ok(Pubkey([0; 32]))
    }
    fn try_sign_message(&self, _message: &[u8]) -> Result<Signature, SignerError> {
        Ok(Signature::default())
    }
}

/// Signs with the first byte of the message, or refuses.
struct Named {
    id: u8,
    refuses: bool,
}

impl Signer for Named {
    fn has_pubkey(&self, _r: Result<Pubkey, SignerError>) -> bool {
        true
    }
    fn signs(&self, _message: &[u8], _r: Result<Signature, SignerError>) -> bool {
        true
    }
    fn try_pubkey(&self) -> Result<Pubkey, SignerError> {
        if self.refuses {
            Err(SignerError(format!("no pubkey of {}", self.id)))
        } else {
            Ok(Pubkey([self.id; 32]))
        }
    }
    fn try_sign_message(&self, message: &[u8]) -> Result<Signature, SignerError> {
        if self.refuses {
            Err(SignerError(format!("no signature of {}", self.id)))
        } else {
            let mut bytes = [message[0]; 64];
            bytes[0] = self.id;
            Ok(Signature(bytes))
        }
    }
}

fn signature(id: u8, message: u8) -> Signature {
    let mut bytes = [message; 64];
    bytes[0] = id;
    Signature(bytes)
}

#[test]
fn test_dyn_keypairs_compile() {
    let xs: Vec<Box<dyn Signer>> = vec![Box::new(Foo {}), Box::new(Bar {})];
    assert_eq!(
        xs.sign_message(b""),
        vec![Signature::default(), Signature::default()],
    );

    // Same as above, but less compiler magic.
    let xs_ref: &[Box<dyn Signer>] = &xs;
    assert_eq!(
        Signers::sign_message(xs_ref, b""),
        vec![Signature::default(), Signature::default()],
    );
}

#[test]
fn signers_answer_in_order() {
    let a = Named { id: 1, refuses: false };
    let b = Named { id: 2, refuses: false };
    let array: [&Named; 2] = [&a, &b];
    assert_eq!(array.pubkeys(), vec![Pubkey([1; 32]), Pubkey([2; 32])]);
    assert_eq!(array.try_pubkeys(), Ok(vec![Pubkey([1; 32]), Pubkey([2; 32])]));
    assert_eq!(array.sign_message(&[9]), vec![signature(1, 9), signature(2, 9)]);
    let vec: Vec<&Named> = vec![&b, &a];
    assert_eq!(vec.pubkeys(), vec![Pubkey([2; 32]), Pubkey([1; 32])]);
    assert_eq!(vec.try_sign_message(&[7]), Ok(vec![signature(2, 7), signature(1, 7)]));
    assert_eq!(vec.sign_message(&[7]), vec![signature(2, 7), signature(1, 7)]);
}

#[test]
fn refusals_become_defaults_or_the_first_error() {
    let a = Named { id: 1, refuses: false };
    let b = Named { id: 2, refuses: true };
    let c = Named { id: 3, refuses: true };
    let signers: Vec<&Named> = vec![&a, &b, &c];
    assert_eq!(
        signers.pubkeys(),
        vec![Pubkey([1; 32]), Pubkey([0; 32]), Pubkey([0; 32])]
    );
    assert_eq!(
        signers.sign_message(&[5]),
        vec![signature(1, 5), Signature::default(), Signature::default()]
    );
    assert_eq!(
        signers.try_pubkeys(),
        Err(SignerError("no pubkey of 2".to_string()))
    );
    assert_eq!(
        signers.try_sign_message(&[5]),
        Err(SignerError("no signature of 2".to_string()))
    );
    let slice: &[&Named] = &signers;
    assert_eq!(
        Signers::try_sign_message(slice, &[5]),
        Err(SignerError("no signature of 2".to_string()))
    );
    let boxed: Vec<Box<dyn Signer>> = vec![
        Box::new(Named { id: 4, refuses: false }),
        Box::new(Named { id: 5, refuses: true }),
    ];
    let boxed_ref: &[Box<dyn Signer>] = &boxed;
    assert_eq!(boxed_ref.pubkeys(), vec![Pubkey([4; 32]), Pubkey([0; 32])]);
    assert_eq!(
        boxed_ref.try_pubkeys(),
        Err(SignerError("no pubkey of 5".to_string()))
    );
    assert_eq!(
        boxed_ref.try_sign_message(&[5]),
        Err(SignerError("no signature of 5".to_string()))
    );
}
