//! AES-128-CFB8 stream encryption, as used after the login handshake: both
//! sides encrypt every byte with AES-128 in CFB8 mode, the 16-byte shared
//! secret serving as both the key and the IV.

use vstd::prelude::*;
use openssl::error::ErrorStack;
use openssl::symm::{Cipher, Crypter, Mode};

verus! {

#[verifier::external_type_specification]
#[verifier::external_body]
pub struct ExCrypter(Crypter);

#[verifier::external_type_specification]
#[verifier::external_body]
pub struct ExErrorStack(ErrorStack);

/// The AES-128 encryption of the 16-byte `block` under the 16-byte `key`.
pub uninterp spec fn aes128_encrypt_block(key: Seq<u8>, block: Seq<u8>) -> Seq<u8>;

/// The CFB8 keystream byte after `register`, the IV followed by every
/// ciphertext byte so far: the first byte of the AES encryption of the last
/// 16 bytes of it.
pub open spec fn cfb8_keystream(key: Seq<u8>, register: Seq<u8>) -> u8 {
    aes128_encrypt_block(key, register.subrange(register.len() - 16, register.len() as int))[0]
}

/// CFB8 encryption of `plaintext`, after `register` (IV and ciphertext so
/// far): each byte is XORed with the keystream byte, and the ciphertext byte
/// shifts into the register.
pub open spec fn cfb8_encrypt(key: Seq<u8>, register: Seq<u8>, plaintext: Seq<u8>) -> Seq<u8>
    decreases plaintext.len(),
{
    if plaintext.len() == 0 {
        Seq::empty()
    } else {
        let c = plaintext[0] ^ cfb8_keystream(key, register);
        seq![c] + cfb8_encrypt(key, register.push(c), plaintext.drop_first())
    }
}

/// CFB8 decryption of `ciphertext`, after `register` (IV and ciphertext so
/// far): each byte is XORed with the keystream byte and shifts into the
/// register.
pub open spec fn cfb8_decrypt(key: Seq<u8>, register: Seq<u8>, ciphertext: Seq<u8>) -> Seq<u8>
    decreases ciphertext.len(),
{
    if ciphertext.len() == 0 {
        Seq::empty()
    } else {
        seq![ciphertext[0] ^ cfb8_keystream(key, register)] + cfb8_decrypt(
            key,
            register.push(ciphertext[0]),
            ciphertext.drop_first(),
        )
    }
}

/// Encrypting `pieces` one after another with one encryptor whose register
/// starts at `register`: each piece's ciphertext, joined in order.
pub open spec fn cfb8_encrypt_pieces(key: Seq<u8>, register: Seq<u8>, pieces: Seq<Seq<u8>>) -> Seq<u8>
    decreases pieces.len(),
{
    if pieces.len() == 0 {
        Seq::empty()
    } else {
        let c = cfb8_encrypt(key, register, pieces[0]);
        c + cfb8_encrypt_pieces(key, register + c, pieces.drop_first())
    }
}

/// Decrypting `pieces` one after another with one decryptor whose register
/// starts at `register`: each piece's plaintext, joined in order.
pub open spec fn cfb8_decrypt_pieces(key: Seq<u8>, register: Seq<u8>, pieces: Seq<Seq<u8>>) -> Seq<u8>
    decreases pieces.len(),
{
    if pieces.len() == 0 {
        Seq::empty()
    } else {
        cfb8_decrypt(key, register, pieces[0]) + cfb8_decrypt_pieces(key, register + pieces[0], pieces.drop_first())
    }
}

/// Errors of the cipher.
#[derive(Debug)]
pub enum EncryptionError {
    /// OpenSSL reported an error.
    Cipher(ErrorStack),
}

/// Stateful AES-128-CFB8 encryptor.
pub struct Cfb8Encryptor {
    crypter: Crypter,
    key: Ghost<Seq<u8>>,
    register: Ghost<Seq<u8>>,
}

/// Stateful AES-128-CFB8 decryptor.
pub struct Cfb8Decryptor {
    crypter: Crypter,
    key: Ghost<Seq<u8>>,
    register: Ghost<Seq<u8>>,
}

/// `Crypter::new(Cipher::aes_128_cfb8(), Mode::Encrypt, key, Some(key))`: an
/// encrypting AES-128-CFB8 context with `key` as key and as IV, so that the
/// register holds the IV and nothing has been encrypted yet.
#[verifier::external_body]
fn new_encrypting_crypter(key: &[u8; 16]) -> (r: Result<Cfb8Encryptor, ErrorStack>)
    ensures
        r matches Ok(e) ==> e.key@ == key@ && e.register@ == key@,
{
    let crypter = Crypter::new(Cipher::aes_128_cfb8(), Mode::Encrypt, key, Some(key))?;
    Ok(Cfb8Encryptor { crypter, key: Ghost(key@), register: Ghost(key@) })
}

/// `Crypter::new(Cipher::aes_128_cfb8(), Mode::Decrypt, key, Some(key))`: a
/// decrypting AES-128-CFB8 context with `key` as key and as IV.
#[verifier::external_body]
fn new_decrypting_crypter(key: &[u8; 16]) -> (r: Result<Cfb8Decryptor, ErrorStack>)
    ensures
        r matches Ok(d) ==> d.key@ == key@ && d.register@ == key@,
{
    let crypter = Crypter::new(Cipher::aes_128_cfb8(), Mode::Decrypt, key, Some(key))?;
    Ok(Cfb8Decryptor { crypter, key: Ghost(key@), register: Ghost(key@) })
}

/// `Crypter::pad(padding)`: padding has no effect on a stream mode such as
/// CFB8, so the context's state is unchanged.
#[verifier::external_body]
fn crypter_pad(crypter: &mut Crypter, padding: bool) {
    crypter.pad(padding)
}

/// `Crypter::update` on an encrypting context: CFB8 is a stream mode (block
/// size 1), so on success it writes exactly one ciphertext byte per input
/// byte to the front of `output` and shifts them into the register; the
/// first of them is the first input byte XOR the first byte of the AES
/// encryption of the register's last 16 bytes. It
/// panics when `input` is longer than `c_int::MAX` or `output` is shorter
/// than `input`. After an error nothing is said of the register.
#[verifier::external_body]
fn encrypt_update(enc: &mut Cfb8Encryptor, input: &[u8], output: &mut Vec<u8>) -> (r: Result<usize, ErrorStack>)
    requires
        input@.len() <= i32::MAX,
        old(output)@.len() >= input@.len(),
    ensures
        final(enc).key@ == old(enc).key@,
        final(output)@.len() == old(output)@.len(),
        r matches Ok(n) ==> n == input@.len() && final(output)@.take(n as int) == cfb8_encrypt(old(enc).key@, old(enc).register@, input@)
            && final(enc).register@ == old(enc).register@ + cfb8_encrypt(old(enc).key@, old(enc).register@, input@),
        r matches Ok(n) ==> (n > 0 ==> final(output)@[0] == input@[0] ^ aes128_encrypt_block(old(enc).key@,
            old(enc).register@.subrange(old(enc).register@.len() - 16, old(enc).register@.len() as int))[0]),
{
    enc.crypter.update(input, output.as_mut_slice())
}

/// `Crypter::update` on a decrypting context: on success exactly one
/// plaintext byte per input byte, written to the front of `output`, the
/// ciphertext shifting into the register; the first of them is the first
/// input byte XOR the first byte of the AES encryption of the register's
/// last 16 bytes. It panics when `input` is longer
/// than `c_int::MAX` or `output` is shorter than `input`. After an error
/// nothing is said of the register.
#[verifier::external_body]
fn decrypt_update(dec: &mut Cfb8Decryptor, input: &[u8], output: &mut Vec<u8>) -> (r: Result<usize, ErrorStack>)
    requires
        input@.len() <= i32::MAX,
        old(output)@.len() >= input@.len(),
    ensures
        final(dec).key@ == old(dec).key@,
        final(output)@.len() == old(output)@.len(),
        r matches Ok(n) ==> n == input@.len() && final(output)@.take(n as int) == cfb8_decrypt(old(dec).key@, old(dec).register@, input@)
            && final(dec).register@ == old(dec).register@ + input@,
        r matches Ok(n) ==> (n > 0 ==> final(output)@[0] == input@[0] ^ aes128_encrypt_block(old(dec).key@,
            old(dec).register@.subrange(old(dec).register@.len() - 16, old(dec).register@.len() as int))[0]),
{
    dec.crypter.update(input, output.as_mut_slice())
}

impl Cfb8Encryptor {
    /// The key.
    pub closed spec fn key(&self) -> Seq<u8> {
        self.key@
    }

    /// The IV followed by every ciphertext byte produced so far.
    pub closed spec fn register(&self) -> Seq<u8> {
        self.register@
    }

    /// Create an encryptor with the given key, which is also the IV, as the
    /// protocol requires.
    pub fn new(key: &[u8; 16]) -> (r: Result<Self, EncryptionError>)
        ensures
            r matches Ok(e) ==> e.key() == key@ && e.register() == key@,
    {
        let mut enc = match new_encrypting_crypter(key) {
            Ok(e) => e,
            Err(e) => return Err(EncryptionError::Cipher(e)),
        };
        crypter_pad(&mut enc.crypter, false);
        Ok(enc)
    }

    /// Encrypt `plaintext`, continuing the stream: the ciphertext is as long
    /// as the plaintext and depends on everything encrypted before.
    pub fn encrypt(&mut self, plaintext: &[u8]) -> (r: Result<Vec<u8>, EncryptionError>)
        requires
            plaintext@.len() <= i32::MAX,
        ensures
            final(self).key() == old(self).key(),
            r matches Ok(c) ==> c@ == cfb8_encrypt(old(self).key(), old(self).register(), plaintext@)
                && final(self).register() == old(self).register() + c@,
    {
        let mut output = vec![0u8; plaintext.len() + 16];
        let n = match encrypt_update(self, plaintext, &mut output) {
            Ok(n) => n,
            Err(e) => return Err(EncryptionError::Cipher(e)),
        };
        output.truncate(n);
        Ok(output)
    }
}

impl Cfb8Decryptor {
    /// The key.
    pub closed spec fn key(&self) -> Seq<u8> {
        self.key@
    }

    /// The IV followed by every ciphertext byte consumed so far.
    pub closed spec fn register(&self) -> Seq<u8> {
        self.register@
    }

    /// Create a decryptor with the given key, which is also the IV.
    pub fn new(key: &[u8; 16]) -> (r: Result<Self, EncryptionError>)
        ensures
            r matches Ok(d) ==> d.key() == key@ && d.register() == key@,
    {
        let mut dec = match new_decrypting_crypter(key) {
            Ok(d) => d,
            Err(e) => return Err(EncryptionError::Cipher(e)),
        };
        crypter_pad(&mut dec.crypter, false);
        Ok(dec)
    }

    /// Decrypt `ciphertext`, continuing the stream.
    pub fn decrypt(&mut self, ciphertext: &[u8]) -> (r: Result<Vec<u8>, EncryptionError>)
        requires
            ciphertext@.len() <= i32::MAX,
        ensures
            final(self).key() == old(self).key(),
            r matches Ok(p) ==> p@ == cfb8_decrypt(old(self).key(), old(self).register(), ciphertext@)
                && final(self).register() == old(self).register() + ciphertext@,
    {
        let mut output = vec![0u8; ciphertext.len() + 16];
        let n = match decrypt_update(self, ciphertext, &mut output) {
            Ok(n) => n,
            Err(e) => return Err(EncryptionError::Cipher(e)),
        };
        output.truncate(n);
        Ok(output)
    }
}

/// Ciphertext is as long as plaintext.
pub proof fn lemma_cfb8_len(key: Seq<u8>, register: Seq<u8>, plaintext: Seq<u8>)
    ensures
        cfb8_encrypt(key, register, plaintext).len() == plaintext.len(),
        cfb8_decrypt(key, register, plaintext).len() == plaintext.len(),
    decreases plaintext.len(),
{
    if plaintext.len() > 0 {
        lemma_cfb8_len(key, register.push(plaintext[0] ^ cfb8_keystream(key, register)), plaintext.drop_first());
        lemma_cfb8_len(key, register.push(plaintext[0]), plaintext.drop_first());
    }
}

/// Decrypting, from the same register, what was encrypted gives the plaintext back.
pub proof fn lemma_cfb8_round_trip(key: Seq<u8>, register: Seq<u8>, plaintext: Seq<u8>)
    ensures
        cfb8_decrypt(key, register, cfb8_encrypt(key, register, plaintext)) == plaintext,
    decreases plaintext.len(),
{
    if plaintext.len() > 0 {
        let k = cfb8_keystream(key, register);
        let p = plaintext[0];
        let c = p ^ k;
        let ct = cfb8_encrypt(key, register, plaintext);
        lemma_cfb8_round_trip(key, register.push(c), plaintext.drop_first());
        assert(ct[0] == c);
        assert(ct.drop_first() =~= cfb8_encrypt(key, register.push(c), plaintext.drop_first()));
        assert((p ^ k) ^ k == p) by (bit_vector);
        assert(cfb8_decrypt(key, register, ct) =~= plaintext);
    }
}

/// Encrypting in two pieces, the second after the register took the first
/// piece's ciphertext, gives the same bytes as encrypting at once.
pub proof fn lemma_cfb8_encrypt_split(key: Seq<u8>, register: Seq<u8>, a: Seq<u8>, b: Seq<u8>)
    ensures
        cfb8_encrypt(key, register, a + b) == cfb8_encrypt(key, register, a) + cfb8_encrypt(
            key,
            register + cfb8_encrypt(key, register, a),
            b,
        ),
    decreases a.len(),
{
    if a.len() == 0 {
        assert(a + b =~= b);
        assert(register + Seq::<u8>::empty() =~= register);
        assert(cfb8_encrypt(key, register, a) =~= Seq::<u8>::empty());
        assert(Seq::<u8>::empty() + cfb8_encrypt(key, register, b) =~= cfb8_encrypt(key, register, b));
    } else {
        let c = a[0] ^ cfb8_keystream(key, register);
        lemma_cfb8_encrypt_split(key, register.push(c), a.drop_first(), b);
        assert((a + b)[0] == a[0]);
        assert((a + b).drop_first() =~= a.drop_first() + b);
        let rest_a = cfb8_encrypt(key, register.push(c), a.drop_first());
        assert(register.push(c) + rest_a =~= register + (seq![c] + rest_a));
        assert(seq![c] + (rest_a + cfb8_encrypt(key, register + (seq![c] + rest_a), b)) =~= (seq![c] + rest_a)
            + cfb8_encrypt(key, register + (seq![c] + rest_a), b));
    }
}

/// Decrypting in two pieces, the second after the register took the first
/// piece, gives the same bytes as decrypting at once.
pub proof fn lemma_cfb8_decrypt_split(key: Seq<u8>, register: Seq<u8>, a: Seq<u8>, b: Seq<u8>)
    ensures
        cfb8_decrypt(key, register, a + b) == cfb8_decrypt(key, register, a) + cfb8_decrypt(key, register + a, b),
    decreases a.len(),
{
    if a.len() == 0 {
        assert(a + b =~= b);
        assert(register + a =~= register);
        assert(Seq::<u8>::empty() + cfb8_decrypt(key, register, b) =~= cfb8_decrypt(key, register, b));
    } else {
        lemma_cfb8_decrypt_split(key, register.push(a[0]), a.drop_first(), b);
        assert((a + b)[0] == a[0]);
        assert((a + b).drop_first() =~= a.drop_first() + b);
        assert(register.push(a[0]) + a.drop_first() =~= register + a);
        let d = seq![a[0] ^ cfb8_keystream(key, register)];
        let ra = cfb8_decrypt(key, register.push(a[0]), a.drop_first());
        assert(d + (ra + cfb8_decrypt(key, register + a, b)) =~= (d + ra) + cfb8_decrypt(key, register + a, b));
    }
}

/// Encrypting a stream in any number of pieces, one call per piece, gives
/// the same bytes as encrypting it in one call: the output depends only on
/// the bytes joined.
pub proof fn lemma_cfb8_encrypt_pieces(key: Seq<u8>, register: Seq<u8>, pieces: Seq<Seq<u8>>)
    ensures
        cfb8_encrypt_pieces(key, register, pieces) == cfb8_encrypt(key, register, pieces.flatten()),
    decreases pieces.len(),
{
    if pieces.len() == 0 {
        assert(cfb8_encrypt(key, register, pieces.flatten()) =~= Seq::<u8>::empty());
    } else {
        let c = cfb8_encrypt(key, register, pieces[0]);
        lemma_cfb8_encrypt_pieces(key, register + c, pieces.drop_first());
        lemma_cfb8_encrypt_split(key, register, pieces[0], pieces.drop_first().flatten());
    }
}

/// Decrypting a stream in any number of pieces, one call per piece, gives
/// the same bytes as decrypting it in one call: the output depends only on
/// the bytes joined.
pub proof fn lemma_cfb8_decrypt_pieces(key: Seq<u8>, register: Seq<u8>, pieces: Seq<Seq<u8>>)
    ensures
        cfb8_decrypt_pieces(key, register, pieces) == cfb8_decrypt(key, register, pieces.flatten()),
    decreases pieces.len(),
{
    if pieces.len() == 0 {
        assert(cfb8_decrypt(key, register, pieces.flatten()) =~= Seq::<u8>::empty());
    } else {
        lemma_cfb8_decrypt_pieces(key, register + pieces[0], pieces.drop_first());
        lemma_cfb8_decrypt_split(key, register, pieces[0], pieces.drop_first().flatten());
    }
}

} // verus!
