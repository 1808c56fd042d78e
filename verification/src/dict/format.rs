//! Binary format of translations (command lists) in compiled dictionaries.
//!
//! A command list is stored as the concatenation of its commands followed by `0xFF`.
//! A `Write` command is stored as its UTF-8 byte length (below 64) followed by the bytes;
//! every other command is a single byte.
use crate::formatter::{AttachmentMode, CapitalizationMode, CommandView, GenericFormatterCommand};
use vstd::prelude::*;
use vstd::utf8::{decode_utf8, encode_utf8, valid_utf8};

verus! {

/// Maximum number of bytes a translation may use in serialized form
pub const TRANSLATION_SIZE_LIMIT: usize = 256;

/// Byte marking the end of a command list.
pub const END_OF_COMMANDS: u8 = 0xFF;

pub open spec fn capitalization_code(mode: CapitalizationMode) -> u8 {
    match mode {
        CapitalizationMode::Unchanged => 0b01_000_000,
        CapitalizationMode::Lowercase => 0b01_001_000,
        CapitalizationMode::Capitalize => 0b01_010_000,
        CapitalizationMode::Uppercase => 0b01_011_000,
        CapitalizationMode::LowerThenCapitalize => 0b01_100_000,
        CapitalizationMode::LowercaseNext => 0b01_101_000,
        CapitalizationMode::CapitalizeNext => 0b01_110_000,
        CapitalizationMode::UppercaseNext => 0b01_111_000,
    }
}

pub open spec fn attachment_code(mode: AttachmentMode) -> u8 {
    match mode {
        AttachmentMode::Delimited => 0b10_00_0000,
        AttachmentMode::Glue => 0b10_01_0000,
        AttachmentMode::Next => 0b10_10_0000,
        AttachmentMode::Always => 0b10_11_0000,
    }
}

/// Byte of the reset command.
pub open spec fn reset_code() -> u8 {
    0b110_00000
}

/// The command can be encoded: written text is shorter than 64 bytes.
pub open spec fn encodable_command(command: CommandView) -> bool {
    command matches GenericFormatterCommand::Write(s) ==> encode_utf8(s).len() < 64
}

/// Serialized form of one command.
pub open spec fn encode_command(command: CommandView) -> Seq<u8> {
    match command {
        GenericFormatterCommand::Write(s) => seq![encode_utf8(s).len() as u8] + encode_utf8(s),
        GenericFormatterCommand::ChangeCapitalization(c) => seq![capitalization_code(c)],
        GenericFormatterCommand::ChangeAttachment(a) => seq![attachment_code(a)],
        GenericFormatterCommand::ResetFormatting => seq![reset_code()],
    }
}

/// Serialized commands without the terminator.
pub open spec fn encode_commands_body(commands: Seq<CommandView>) -> Seq<u8>
    decreases commands.len(),
{
    if commands.len() == 0 {
        Seq::empty()
    } else {
        encode_command(commands[0]) + encode_commands_body(commands.drop_first())
    }
}

/// Serialized form of a command list.
pub open spec fn encode_commands(commands: Seq<CommandView>) -> Seq<u8> {
    encode_commands_body(commands).push(END_OF_COMMANDS)
}

/// Outcome of reading one command.
pub enum Decoded {
    /// A command occupying the given number of bytes.
    Command(CommandView, nat),
    /// The end-of-list marker.
    End,
    /// Bytes that are not a command (reading them is refused).
    Malformed,
}

/// Capitalization mode with the given code, if any.
pub open spec fn capitalization_of(byte: u8) -> Option<CapitalizationMode> {
    if byte == 0b01_000_000 { Some(CapitalizationMode::Unchanged) }
    else if byte == 0b01_001_000 { Some(CapitalizationMode::Lowercase) }
    else if byte == 0b01_010_000 { Some(CapitalizationMode::Capitalize) }
    else if byte == 0b01_011_000 { Some(CapitalizationMode::Uppercase) }
    else if byte == 0b01_100_000 { Some(CapitalizationMode::LowerThenCapitalize) }
    else if byte == 0b01_101_000 { Some(CapitalizationMode::LowercaseNext) }
    else if byte == 0b01_110_000 { Some(CapitalizationMode::CapitalizeNext) }
    else if byte == 0b01_111_000 { Some(CapitalizationMode::UppercaseNext) }
    else { None }
}

/// Attachment mode with the given code, if any.
pub open spec fn attachment_of(byte: u8) -> Option<AttachmentMode> {
    if byte == 0b10_00_0000 { Some(AttachmentMode::Delimited) }
    else if byte == 0b10_01_0000 { Some(AttachmentMode::Glue) }
    else if byte == 0b10_10_0000 { Some(AttachmentMode::Next) }
    else if byte == 0b10_11_0000 { Some(AttachmentMode::Always) }
    else { None }
}

/// Reads the command starting at `offset`.
pub open spec fn decode_command(bytes: Seq<u8>, offset: int) -> Decoded {
    if offset < 0 || offset >= bytes.len() {
        Decoded::Malformed
    } else {
        let head = bytes[offset];
        if head < 64 {
            let len = head as int;
            if offset + 1 + len > bytes.len() {
                Decoded::Malformed
            } else {
                let data = bytes.subrange(offset + 1, offset + 1 + len);
                if valid_utf8(data) {
                    Decoded::Command(GenericFormatterCommand::Write(decode_utf8(data)), (1 + len) as nat)
                } else {
                    Decoded::Malformed
                }
            }
        } else if head == END_OF_COMMANDS {
            Decoded::End
        } else if capitalization_of(head) is Some {
            Decoded::Command(GenericFormatterCommand::ChangeCapitalization(capitalization_of(head)->0), 1)
        } else if attachment_of(head) is Some {
            Decoded::Command(GenericFormatterCommand::ChangeAttachment(attachment_of(head)->0), 1)
        } else if head == reset_code() {
            Decoded::Command(GenericFormatterCommand::ResetFormatting, 1)
        } else {
            Decoded::Malformed
        }
    }
}

/// Reads the command list starting at `offset`, or `None` if the bytes do not hold a terminated list.
pub open spec fn decode_commands(bytes: Seq<u8>, offset: int) -> Option<Seq<CommandView>>
    decreases bytes.len() - offset,
{
    if offset < 0 || offset >= bytes.len() {
        None
    } else {
        match decode_command(bytes, offset) {
            Decoded::End => Some(Seq::empty()),
            Decoded::Malformed => None,
            Decoded::Command(command, len) => if len >= 1 {
                match decode_commands(bytes, offset + len) {
                    Some(rest) => Some(seq![command] + rest),
                    None => None,
                }
            } else {
                None
            },
        }
    }
}

/// Reading a serialized command gives the command back.
pub proof fn lemma_decode_encode_command(command: CommandView, bytes: Seq<u8>, offset: int)
    requires
        encodable_command(command),
        0 <= offset,
        offset + encode_command(command).len() <= bytes.len(),
        bytes.subrange(offset, offset + encode_command(command).len()) == encode_command(command),
    ensures
        decode_command(bytes, offset) == Decoded::Command(command, encode_command(command).len()),
{
    let enc = encode_command(command);
    assert(bytes[offset] == enc[0]);
    match command {
        GenericFormatterCommand::Write(s) => {
            let len = encode_utf8(s).len();
            assert(bytes.subrange(offset + 1, offset + 1 + len) =~= encode_utf8(s)) by {
                assert forall|i: int| 0 <= i < len implies bytes.subrange(offset + 1, offset + 1 + len)[i]
                    == encode_utf8(s)[i] by {
                    assert(bytes[offset + 1 + i] == enc[1 + i]);
                }
            }
            vstd::utf8::encode_utf8_valid_utf8(s);
            vstd::utf8::encode_utf8_decode_utf8(s);
        },
        GenericFormatterCommand::ChangeCapitalization(c) => {},
        GenericFormatterCommand::ChangeAttachment(a) => {},
        GenericFormatterCommand::ResetFormatting => {},
    }
}

/// Reading a serialized command list gives the list back, whatever follows it.
pub proof fn lemma_decode_encode_commands(commands: Seq<CommandView>, bytes: Seq<u8>, offset: int)
    requires
        forall|i: int| 0 <= i < commands.len() ==> encodable_command(#[trigger] commands[i]),
        0 <= offset,
        offset + encode_commands(commands).len() <= bytes.len(),
        bytes.subrange(offset, offset + encode_commands(commands).len()) == encode_commands(commands),
    ensures
        decode_commands(bytes, offset) == Some(commands),
    decreases commands.len(),
{
    let all = encode_commands(commands);
    if commands.len() == 0 {
        assert(encode_commands_body(commands) =~= Seq::<u8>::empty());
        assert(bytes[offset] == all[0]);
    } else {
        let first = encode_command(commands[0]);
        let rest = commands.drop_first();
        assert(encodable_command(commands[0]));
        assert(all =~= first + encode_commands(rest));
        assert(bytes.subrange(offset, offset + first.len()) =~= first) by {
            assert forall|i: int| 0 <= i < first.len() implies bytes.subrange(offset, offset + first.len())[i]
                == first[i] by {
                assert(bytes[offset + i] == all[i]);
            }
        }
        lemma_decode_encode_command(commands[0], bytes, offset);
        let next = offset + first.len();
        assert(bytes.subrange(next, next + encode_commands(rest).len()) =~= encode_commands(rest)) by {
            assert forall|i: int| 0 <= i < encode_commands(rest).len() implies bytes.subrange(
                next,
                next + encode_commands(rest).len(),
            )[i] == encode_commands(rest)[i] by {
                assert(bytes[next + i] == all[first.len() + i]);
            }
        }
        assert forall|i: int| 0 <= i < rest.len() implies encodable_command(#[trigger] rest[i]) by {
            assert(rest[i] == commands[i + 1]);
        }
        lemma_decode_encode_commands(rest, bytes, next);
        assert(seq![commands[0]] + rest =~= commands);
    }
}

} // verus!
