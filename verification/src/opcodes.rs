//! JVM opcode numbers.
use vstd::prelude::*;

verus! {

pub const NOP: u8 = 0x00u8;
pub const ACONST_NULL: u8 = 0x01u8;
pub const ICONST_M1: u8 = 0x02u8;
pub const ICONST_0: u8 = 0x03u8;
pub const ICONST_1: u8 = 0x04u8;
pub const ICONST_2: u8 = 0x05u8;
pub const ICONST_3: u8 = 0x06u8;
pub const ICONST_4: u8 = 0x07u8;
pub const ICONST_5: u8 = 0x08u8;
pub const BIPUSH: u8 = 0x10u8;
pub const SIPUSH: u8 = 0x11u8;
pub const LDC: u8 = 0x12u8;
pub const LDC_W: u8 = 0x13u8;
pub const LDC2_W: u8 = 0x14u8;
pub const ILOAD: u8 = 0x15u8;
pub const ALOAD: u8 = 0x19u8;
pub const ILOAD_0: u8 = 0x1au8;
pub const ILOAD_1: u8 = 0x1bu8;
pub const ILOAD_2: u8 = 0x1cu8;
pub const ILOAD_3: u8 = 0x1du8;
pub const ALOAD_0: u8 = 0x2au8;
pub const ALOAD_1: u8 = 0x2bu8;
pub const ALOAD_2: u8 = 0x2cu8;
pub const ALOAD_3: u8 = 0x2du8;
pub const AALOAD: u8 = 0x32u8;
pub const ASTORE: u8 = 0x3au8;
pub const ASTORE_0: u8 = 0x4bu8;
pub const ASTORE_1: u8 = 0x4cu8;
pub const ASTORE_2: u8 = 0x4du8;
pub const ASTORE_3: u8 = 0x4eu8;
pub const AASTORE: u8 = 0x53u8;
pub const POP: u8 = 0x57u8;
pub const POP2: u8 = 0x58u8;
pub const DUP: u8 = 0x59u8;
pub const IFEQ: u8 = 0x99u8;
pub const IFNE: u8 = 0x9au8;
pub const IFLT: u8 = 0x9bu8;
pub const IFGE: u8 = 0x9cu8;
pub const IFGT: u8 = 0x9du8;
pub const IFLE: u8 = 0x9eu8;
pub const IF_ICMPEQ: u8 = 0x9fu8;
pub const IF_ICMPNE: u8 = 0xa0u8;
pub const IF_ICMPLT: u8 = 0xa1u8;
pub const IF_ICMPGE: u8 = 0xa2u8;
pub const IF_ICMPGT: u8 = 0xa3u8;
pub const IF_ICMPLE: u8 = 0xa4u8;
pub const IF_ACMPEQ: u8 = 0xa5u8;
pub const IF_ACMPNE: u8 = 0xa6u8;
pub const GOTO: u8 = 0xa7u8;
pub const JSR: u8 = 0xa8u8;
pub const RET: u8 = 0xa9u8;
pub const TABLESWITCH: u8 = 0xaau8;
pub const LOOKUPSWITCH: u8 = 0xabu8;
pub const IRETURN: u8 = 0xacu8;
pub const LRETURN: u8 = 0xadu8;
pub const FRETURN: u8 = 0xaeu8;
pub const DRETURN: u8 = 0xafu8;
pub const ARETURN: u8 = 0xb0u8;
pub const RETURN: u8 = 0xb1u8;
pub const GETSTATIC: u8 = 0xb2u8;
pub const PUTSTATIC: u8 = 0xb3u8;
pub const GETFIELD: u8 = 0xb4u8;
pub const PUTFIELD: u8 = 0xb5u8;
pub const INVOKEVIRTUAL: u8 = 0xb6u8;
pub const INVOKESPECIAL: u8 = 0xb7u8;
pub const INVOKESTATIC: u8 = 0xb8u8;
pub const INVOKEINTERFACE: u8 = 0xb9u8;
pub const INVOKEDYNAMIC: u8 = 0xbau8;
pub const NEW: u8 = 0xbbu8;
pub const NEWARRAY: u8 = 0xbcu8;
pub const ANEWARRAY: u8 = 0xbdu8;
pub const ARRAYLENGTH: u8 = 0xbeu8;
pub const ATHROW: u8 = 0xbfu8;
pub const CHECKCAST: u8 = 0xc0u8;
pub const INSTANCEOF: u8 = 0xc1u8;
pub const MONITORENTER: u8 = 0xc2u8;
pub const MONITOREXIT: u8 = 0xc3u8;
pub const WIDE: u8 = 0xc4u8;
pub const MULTIANEWARRAY: u8 = 0xc5u8;
pub const IFNULL: u8 = 0xc6u8;
pub const IFNONNULL: u8 = 0xc7u8;
pub const GOTO_W: u8 = 0xc8u8;
pub const JSR_W: u8 = 0xc9u8;

} // verus!
