//! Generating keys for encryption.

use vstd::prelude::*;

verus! {

/// The name of a file that stands for the standard output.
pub const STDOUT_OUTFILE_TOKEN: &'static str = "-";

/// The language that the words of a seed phrase are taken from.
#[derive(Clone, Copy, Debug, PartialEq, Eq, Structural)]
pub enum Language {
    English,
    ChineseSimplified,
    ChineseTraditional,
    French,
    Italian,
    Japanese,
    Korean,
    Spanish,
}

/// What kind of key to generate.
#[derive(Clone, Copy, Debug, PartialEq, Eq, Structural)]
pub enum KeyType {
    ElGamal,
    Symmetric,
}

impl KeyType {
    /// How the kind of key is called on the command line.
    pub open spec fn spec_name(self) -> Seq<char> {
        match self {
            KeyType::ElGamal => "elgamal"@,
            KeyType::Symmetric => "symmetric"@,
        }
    }

    /// The name of the file that a key goes to where nothing else is said.
    pub open spec fn spec_default_file_name(self) -> Seq<char> {
        match self {
            KeyType::ElGamal => "elgamal.json"@,
            KeyType::Symmetric => "symmetric.json"@,
        }
    }

    pub fn default_file_name(&self) -> (r: String)
        ensures
            r@ == self.spec_default_file_name(),
    {
        match self {
            KeyType::ElGamal => "elgamal.json".to_string(),
            KeyType::Symmetric => "symmetric.json".to_string(),
        }
    }

    /// The kind of key of that name.
    pub fn parse(name: &String) -> (r: Option<KeyType>)
        ensures
            match r {
                Some(key_type) => key_type.spec_name() == name@,
                None => name@ != KeyType::ElGamal.spec_name() && name@
                    != KeyType::Symmetric.spec_name(),
            },
    {
        if *name == "elgamal".to_string() {
            Some(KeyType::ElGamal)
        } else if *name == "symmetric".to_string() {
            Some(KeyType::Symmetric)
        } else {
            None
        }
    }

    /// What is said before a key is generated.
    pub fn announcement(&self) -> (r: &'static str)
        ensures
            r@ == (match *self {
                KeyType::ElGamal => "Generating a new ElGamal keypair"@,
                KeyType::Symmetric => "Generating a new symmetric encryption key"@,
            }),
    {
        match self {
            KeyType::ElGamal => "Generating a new ElGamal keypair",
            KeyType::Symmetric => "Generating a new symmetric encryption key",
        }
    }

    /// What the generated key is called.
    pub fn source(&self) -> (r: &'static str)
        ensures
            r@ == self.spec_source(),
    {
        match self {
            KeyType::ElGamal => "new ElGamal keypair",
            KeyType::Symmetric => "new symmetric key",
        }
    }

    pub open spec fn spec_source(self) -> Seq<char> {
        match self {
            KeyType::ElGamal => "new ElGamal keypair"@,
            KeyType::Symmetric => "new symmetric key"@,
        }
    }
}

/// A path with one more part.
pub open spec fn joined(path: Seq<char>, part: Seq<char>) -> Seq<char> {
    if path.len() == 0 || path.last() == '/' {
        path + part
    } else {
        path + "/"@ + part
    }
}

/// Adds one more part to a path.
fn join(path: &mut String, part: &str)
    ensures
        final(path)@ == joined(old(path)@, part@),
{
    let len: usize = path.as_str().unicode_len();
    if len > 0 && path.as_str().get_char(len - 1) != '/' {
        path.append("/");
    }
    path.append(part);
}

/// Where a key goes where nothing else is said.
pub open spec fn default_path(home: Seq<char>, key_type: KeyType) -> Seq<char> {
    joined(joined(joined(home, ".config"@), "solana"@), key_type.spec_default_file_name())
}

/// The file that the key goes to: the one that was named, or none if that was asked for, or else one
/// in the user's home.
pub fn choose_outfile(
    outfile: Option<String>,
    no_outfile: bool,
    home: &str,
    key_type: KeyType,
) -> (r: Option<String>)
    ensures
        match outfile {
            Some(_) => r == outfile,
            None => if no_outfile {
                r is None
            } else {
                r is Some && r->Some_0@ == default_path(home@, key_type)
            },
        },
{
    match outfile {
        Some(outfile) => Some(outfile),
        None => if no_outfile {
            None
        } else {
            let mut path: String = home.to_string();
            join(&mut path, ".config");
            join(&mut path, "solana");
            join(&mut path, key_type.default_file_name().as_str());
            Some(path)
        },
    }
}

/// Where the key is written to.
#[derive(Clone, Copy, Debug, PartialEq, Eq, Structural)]
pub enum Output {
    Nowhere,
    Stdout,
    /// A file. It must not be there yet, unless overwriting was asked for.
    File,
}

/// Where the key is written to, given the file that was chosen for it.
pub fn output_to(outfile: &Option<String>) -> (r: Output)
    ensures
        r == (match *outfile {
            None => Output::Nowhere,
            Some(name) => if name@ == STDOUT_OUTFILE_TOKEN@ {
                Output::Stdout
            } else {
                Output::File
            },
        }),
{
    match outfile {
        None => Output::Nowhere,
        Some(name) => if *name == STDOUT_OUTFILE_TOKEN.to_string() {
            Output::Stdout
        } else {
            Output::File
        },
    }
}

/// What is said once the key is in its file.
pub fn wrote_message(key_type: KeyType, outfile: &str) -> (r: String)
    ensures
        r@ == "Wrote "@ + key_type.spec_source() + " to "@ + outfile@,
{
    let mut r: String = "Wrote ".to_string();
    r.append(key_type.source());
    r.append(" to ");
    r.append(outfile);
    r
}

/// What is said when the key cannot be written to its file.
pub fn unable_to_write_message(outfile: &str, error: &str) -> (r: String)
    ensures
        r@ == "Unable to write "@ + outfile@ + ": "@ + error@,
{
    let mut r: String = "Unable to write ".to_string();
    r.append(outfile);
    r.append(": ");
    r.append(error);
    r
}

/// What is said of a key in the making: nothing where silence was asked for.
pub fn shown(silent: bool, message: String) -> (r: Option<String>)
    ensures
        r is None <==> silent,
        r matches Some(m) ==> m == message,
{
    if silent {
        None
    } else {
        Some(message)
    }
}

/// A line of so many equals signs.
pub open spec fn divider_of(len: nat) -> Seq<char> {
    Seq::new(len, |i: int| '=')
}

/// A line as long as the phrase, in bytes.
fn divider(phrase: &str) -> (r: String)
    ensures
        r@ == divider_of(phrase.len() as nat),
{
    let len: usize = phrase.len();
    let mut r: String = String::new();
    let mut i: usize = 0;
    while i < len
        invariant
            i <= len,
            r@ == divider_of(i as nat),
        decreases len - i,
    {
        r.push('=');
        i = i + 1;
        assert(r@ =~= divider_of(i as nat));
    }
    r
}

/// What is said when an ElGamal keypair has been generated.
pub fn elgamal_message(phrase: &str, pubkey: &str, passphrase_message: &str) -> (r: String)
    ensures
        ({
            let line = divider_of(phrase.len() as nat);
            r@ == line + "\npubkey: "@ + pubkey@ + "\n"@ + line + "\nSave this seed phrase"@
                + passphrase_message@ + " to recover your new ElGamal keypair:\n"@ + phrase@ + "\n"@
                + line
        }),
{
    let line = divider(phrase);
    let mut r: String = line.clone();
    r.append("\npubkey: ");
    r.append(pubkey);
    r.append("\n");
    r.append(line.as_str());
    r.append("\nSave this seed phrase");
    r.append(passphrase_message);
    r.append(" to recover your new ElGamal keypair:\n");
    r.append(phrase);
    r.append("\n");
    r.append(line.as_str());
    r
}

/// What is said when a symmetric key has been generated.
pub fn symmetric_message(phrase: &str, passphrase_message: &str) -> (r: String)
    ensures
        ({
            let line = divider_of(phrase.len() as nat);
            r@ == line + "\nSave this seed phrase"@ + passphrase_message@
                + " to recover your new symmetric key:\n"@ + phrase@ + "\n"@ + line
        }),
{
    let line = divider(phrase);
    let mut r: String = line.clone();
    r.append("\nSave this seed phrase");
    r.append(passphrase_message);
    r.append(" to recover your new symmetric key:\n");
    r.append(phrase);
    r.append("\n");
    r.append(line.as_str());
    r
}

/// The numbers of words that a seed phrase can have.
pub open spec fn is_word_count(n: usize) -> bool {
    n == 12 || n == 15 || n == 18 || n == 21 || n == 24
}

/// The number of words of a phrase, which single blanks keep apart.
pub open spec fn word_count_of(phrase: Seq<char>) -> nat {
    phrase.filter(|c: char| c == ' ').len() + 1
}

/// Whether `Mnemonic::validate` accepts a phrase: its words are of the language, and its checksum is
/// right.
pub uninterp spec fn bip39_is_valid(phrase: Seq<char>, language: Language) -> bool;

/// `Mnemonic::validate`: whether it accepts the phrase.
#[verifier::external_body]
fn bip39_validate(phrase: &str, language: Language) -> (r: bool)
    ensures
        r == bip39_is_valid(phrase@, language),
{
    let language = match language {
        Language::English => bip39::Language::English,
        Language::ChineseSimplified => bip39::Language::ChineseSimplified,
        Language::ChineseTraditional => bip39::Language::ChineseTraditional,
        Language::French => bip39::Language::French,
        Language::Italian => bip39::Language::Italian,
        Language::Japanese => bip39::Language::Japanese,
        Language::Korean => bip39::Language::Korean,
        Language::Spanish => bip39::Language::Spanish,
    };
    bip39::Mnemonic::validate(phrase, language).is_ok()
}

/// Whether the phrase is a seed phrase of the language, as the generated ones are.
pub fn is_seed_phrase(phrase: &str, language: Language) -> (r: bool)
    ensures
        r == bip39_is_valid(phrase@, language),
{
    bip39_validate(phrase, language)
}

/// The seed that `Seed::new` derives from the phrase of a mnemonic and a passphrase.
pub uninterp spec fn bip39_seed(phrase: Seq<char>, passphrase: Seq<char>) -> Seq<u8>;

/// A seed phrase and the seed that is derived from it.
#[derive(Debug)]
pub struct PhraseAndSeed {
    pub phrase: String,
    pub seed: Vec<u8>,
}

/// `MnemonicType::for_word_count`, `Mnemonic::new` and `Seed::new`: a random phrase of that many
/// words, if a phrase can have as many, which is valid in the language, and the seed of that phrase,
/// which has 64 bytes. Which of the valid phrases it is is left to chance.
#[verifier::external_body]
fn bip39_new(word_count: usize, language: Language, passphrase: &str) -> (r: Option<
    (String, Vec<u8>),
>)
    ensures
        r is Some <==> is_word_count(word_count),
        r is Some ==> word_count_of(r->Some_0.0@) == word_count,
        r is Some ==> bip39_is_valid(r->Some_0.0@, language),
        r is Some ==> r->Some_0.1@ == bip39_seed(r->Some_0.0@, passphrase@),
        r is Some ==> r->Some_0.1@.len() == 64,
{
    let language = match language {
        Language::English => bip39::Language::English,
        Language::ChineseSimplified => bip39::Language::ChineseSimplified,
        Language::ChineseTraditional => bip39::Language::ChineseTraditional,
        Language::French => bip39::Language::French,
        Language::Italian => bip39::Language::Italian,
        Language::Japanese => bip39::Language::Japanese,
        Language::Korean => bip39::Language::Korean,
        Language::Spanish => bip39::Language::Spanish,
    };
    let mnemonic_type = bip39::MnemonicType::for_word_count(word_count).ok()?;
    let mnemonic = bip39::Mnemonic::new(mnemonic_type, language);
    let seed = bip39::Seed::new(&mnemonic, passphrase);
    Some((mnemonic.phrase().to_string(), seed.as_bytes().to_vec()))
}

/// Generates a seed phrase of so many words of a language, and the seed that it stands for together
/// with a passphrase.
pub fn generate_seed(word_count: usize, language: Language, passphrase: &str) -> (r: Result<
    PhraseAndSeed,
    String,
>)
    ensures
        r is Ok <==> is_word_count(word_count),
        r is Ok ==> word_count_of(r->Ok_0.phrase@) == word_count,
        r is Ok ==> bip39_is_valid(r->Ok_0.phrase@, language),
        r is Ok ==> r->Ok_0.seed@ == bip39_seed(r->Ok_0.phrase@, passphrase@),
        r is Ok ==> r->Ok_0.seed@.len() == 64,
        r is Err ==> r->Err_0@ == "invalid number of words in phrase: "@ + crate::text::decimal(
            word_count as nat,
        ),
{
    match bip39_new(word_count, language, passphrase) {
        Some((phrase, seed)) => Ok(PhraseAndSeed { phrase, seed }),
        None => {
            let mut message: String = "invalid number of words in phrase: ".to_string();
            crate::text::push_decimal(&mut message, word_count as u64);
            Err(message)
        },
    }
}

/// The file that was named is the one that is taken. Without a name there is none where none was
/// wanted, and otherwise one in the user's home, which ends with the name for its kind of key.
pub proof fn law_the_file_of_a_key(
    outfile: Option<String>,
    no_outfile: bool,
    home: &str,
    key_type: KeyType,
    r: Option<String>,
)
    requires
        call_ensures(choose_outfile, (outfile, no_outfile, home, key_type), r),
    ensures
        outfile is Some ==> r == outfile,
        outfile is None && no_outfile ==> r is None,
        outfile is None && !no_outfile ==> {
            let name = match key_type {
                KeyType::ElGamal => "elgamal.json"@,
                KeyType::Symmetric => "symmetric.json"@,
            };
            &&& r is Some
            &&& home@.len() > 0 && home@.last() != '/' ==> r->Some_0@ == home@ + "/.config/solana/"@
                + name
            &&& home@.len() > 0 && home@.last() == '/' ==> r->Some_0@ == home@ + ".config/solana/"@
                + name
        },
{
    reveal_strlit("/");
    reveal_strlit(".config");
    reveal_strlit("solana");
    reveal_strlit("/.config/solana/");
    reveal_strlit(".config/solana/");
    if outfile is None && !no_outfile && home@.len() > 0 {
        let name = key_type.spec_default_file_name();
        let first = joined(home@, ".config"@);
        assert(first.last() == 'g');
        let second = joined(first, "solana"@);
        assert(second.last() == 'a');
        if home@.last() != '/' {
            assert(joined(second, name) =~= home@ + "/.config/solana/"@ + name);
        } else {
            assert(joined(second, name) =~= home@ + ".config/solana/"@ + name);
        }
    }
}

/// A key goes to the standard output just when a lone dash names it, and nowhere just without a file.
pub proof fn law_where_a_key_goes(outfile: &Option<String>, r: Output)
    requires
        call_ensures(output_to, (outfile,), r),
    ensures
        r == Output::Nowhere <==> outfile is None,
        outfile matches Some(name) ==> (r == Output::Stdout <==> name@ == seq!['-']),
        outfile matches Some(name) ==> (r == Output::File <==> name@ != seq!['-']),
{
    reveal_strlit("-");
    assert("-"@ =~= seq!['-']);
}

/// A kind of key has one name, and no other text is a kind of key.
pub proof fn law_the_names_of_keys(name: &String, r: Option<KeyType>)
    requires
        call_ensures(KeyType::parse, (name,), r),
    ensures
        r == Some(KeyType::ElGamal) <==> name@ == "elgamal"@,
        r == Some(KeyType::Symmetric) <==> name@ == "symmetric"@,
{
    reveal_strlit("elgamal");
    reveal_strlit("symmetric");
    assert("elgamal"@.len() != "symmetric"@.len());
}

/// A seed phrase has a number of words that phrases can have, as many as were asked for, and its seed
/// has 64 bytes; any other number is refused.
pub proof fn law_a_phrase_has_its_words(
    word_count: usize,
    language: Language,
    passphrase: &str,
    r: Result<PhraseAndSeed, String>,
)
    requires
        call_ensures(generate_seed, (word_count, language, passphrase), r),
    ensures
        r is Ok <==> word_count % 3 == 0 && 12 <= word_count <= 24,
        r matches Ok(made) ==> {
            &&& made.phrase@.filter(|c: char| c == ' ').len() + 1 == word_count
            &&& made.seed@.len() == 64
        },
{
}

/// What is said of a generated key holds the phrase that recovers it, between two lines as long as the
/// phrase.
pub proof fn law_the_phrase_is_told(
    phrase: &str,
    pubkey: &str,
    passphrase_message: &str,
    elgamal: String,
    symmetric: String,
    i: int,
)
    requires
        call_ensures(elgamal_message, (phrase, pubkey, passphrase_message), elgamal),
        call_ensures(symmetric_message, (phrase, passphrase_message), symmetric),
        0 <= i < phrase@.len(),
    ensures
        ({
            let end = elgamal@.len() - phrase.len() as nat - 1 - phrase@.len();
            &&& elgamal@.subrange(end as int, end + phrase@.len()) == phrase@
        }),
        ({
            let end = symmetric@.len() - phrase.len() as nat - 1 - phrase@.len();
            &&& symmetric@.subrange(end as int, end + phrase@.len()) == phrase@
        }),
{
    reveal_strlit("\n");
    let line = divider_of(phrase.len() as nat);
    let e = elgamal@.len() - phrase.len() as nat - 1 - phrase@.len();
    let s = symmetric@.len() - phrase.len() as nat - 1 - phrase@.len();
    assert(elgamal@.subrange(e as int, e + phrase@.len()) =~= phrase@);
    assert(symmetric@.subrange(s as int, s + phrase@.len()) =~= phrase@);
}

} // verus!
