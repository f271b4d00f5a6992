use order_matching::matching::engine::MatchingEngine;
use order_matching::models::order::{CreateOrderRequest, OrderType, Side};

fn create_limit_order(side: Side, price: u64, quantity: u64) -> CreateOrderRequest {
    CreateOrderRequest {
        symbol: "AAPL".to_string(),
        side,
        order_type: OrderType::Limit,
        price: Some(price),
        quantity,
    }
}

#[test]
fn test_matching_correctness() {

    println!("\n========== Matching Correctness Test ==========\n");

    // Test 1: Exact match at same price
    {
        println!("Test 1: Exact match at same price");
        let mut engine = MatchingEngine::new();
        

        let _ = engine.submit_order(create_limit_order(Side::Sell, 15000, 100));
        let result = engine.submit_order(create_limit_order(Side::Buy, 15000, 100));
        
        assert!(result.is_ok());
        assert_eq!(engine.orders_matched(), 2);
        assert_eq!(engine.trades_executed(), 1);
        
        let book = engine.get_order_book("AAPL", 10);
        assert!(book.bids.is_empty(), "No bids should remain");
        assert!(book.asks.is_empty(), "No asks should remain");
        
        println!("  ✅ Orders matched correctly at same price\n");
    }

    // Test 2: No match when prices don't cross
    {
        println!("Test 2: No match when prices don't cross");
        let mut engine = MatchingEngine::new();
        

        let _ = engine.submit_order(create_limit_order(Side::Sell, 15100, 50));
        let _ = engine.submit_order(create_limit_order(Side::Buy, 14900, 50));
        
        assert_eq!(engine.trades_executed(), 0, "No trades should have occurred");
        
        let book = engine.get_order_book("AAPL", 10);
        assert_eq!(book.bids.len(), 1, "One bid should be in book");
        assert_eq!(book.asks.len(), 1, "One ask should be in book");
        assert_eq!(book.bids[0].price, 14900);
        assert_eq!(book.asks[0].price, 15100);
        
        println!("  ✅ No match when buy price < sell price\n");
    }

    // Test 3: Match when buy price >= sell price
    {
        println!("Test 3: Match when buy price >= sell price");
        let mut engine = MatchingEngine::new();
        

        // Sell at 15000
        let _ = engine.submit_order(create_limit_order(Side::Sell, 15000, 50));
        
        // Buy at 15100 (higher than ask) - should match at 15000
        let _ = engine.submit_order(create_limit_order(Side::Buy, 15100, 50));
        
        assert_eq!(engine.trades_executed(), 1, "Trade should have occurred");
        
        let book = engine.get_order_book("AAPL", 10);
        assert!(book.bids.is_empty(), "No bids should remain");
        assert!(book.asks.is_empty(), "No asks should remain");
        
        println!("  ✅ Match occurred when buy price >= sell price\n");
    }

    // Test 4: Partial fill correctness
    {
        println!("Test 4: Partial fill correctness");
        let mut engine = MatchingEngine::new();
        

        let _ = engine.submit_order(create_limit_order(Side::Sell, 16000, 100));
        let _ = engine.submit_order(create_limit_order(Side::Buy, 16000, 30));

        assert_eq!(engine.trades_executed(), 1);
        
        let book = engine.get_order_book("AAPL", 10);
        assert!(book.bids.is_empty(), "Buy order should be fully filled");
        assert_eq!(book.asks.len(), 1, "Partial sell order should remain");
        assert_eq!(book.asks[0].price, 16000);
        assert_eq!(book.asks[0].quantity, 70, "70 should remain from 100-30");
        
        println!("  ✅ Partial fill: 100 - 30 = 70 remaining\n");
    }

    // Test 5: Price priority - lower ask matches first
    {
        println!("Test 5: Price priority");
        let mut engine = MatchingEngine::new();
        

        // Add sells at different prices (higher price first, then lower)
        let _ = engine.submit_order(create_limit_order(Side::Sell, 17000, 50));
        let _ = engine.submit_order(create_limit_order(Side::Sell, 16500, 50));

        // Buy at 17000 should match 16500 first (lower price)
        let _ = engine.submit_order(create_limit_order(Side::Buy, 17000, 50));

        assert_eq!(engine.trades_executed(), 1);
        
        let book = engine.get_order_book("AAPL", 10);
        assert_eq!(book.asks.len(), 1, "One ask should remain");
        assert_eq!(book.asks[0].price, 17000, "17000 ask should remain (16500 was matched)");
        
        println!("  ✅ Price priority: lower ask matched first\n");
    }

    // Test 6: FIFO at same price level
    {
        println!("Test 6: FIFO at same price level");
        let mut engine = MatchingEngine::new();
        

        // Add two sells at same price
        let _ = engine.submit_order(create_limit_order(Side::Sell, 18000, 100));
        let _ = engine.submit_order(create_limit_order(Side::Sell, 18000, 100));

        // Verify aggregated quantity
        let book = engine.get_order_book("AAPL", 10);
        assert_eq!(book.asks.len(), 1, "Should show one price level");
        assert_eq!(book.asks[0].quantity, 200, "Should show aggregated 200");

        // Buy 100 - should match first order completely
        let _ = engine.submit_order(create_limit_order(Side::Buy, 18000, 100));

        assert_eq!(engine.trades_executed(), 1);
        
        let book = engine.get_order_book("AAPL", 10);
        assert_eq!(book.asks.len(), 1, "One price level should remain");
        assert_eq!(book.asks[0].quantity, 100, "Second order (100) should remain");
        
        println!("  ✅ FIFO: first order at price level matched first\n");
    }

    // Test 7: Trade count accuracy
    {
        println!("Test 7: Verify trade count accuracy");
        let mut engine = MatchingEngine::new();
        

        assert_eq!(engine.trades_executed(), 0);
        
        let _ = engine.submit_order(create_limit_order(Side::Sell, 19000, 50));
        let _ = engine.submit_order(create_limit_order(Side::Buy, 19000, 50));
        
        assert_eq!(engine.trades_executed(), 1);
        
        // Multiple trades
        let _ = engine.submit_order(create_limit_order(Side::Sell, 20000, 50));
        let _ = engine.submit_order(create_limit_order(Side::Sell, 20000, 50));
        let _ = engine.submit_order(create_limit_order(Side::Buy, 20000, 100));
        
        assert_eq!(engine.trades_executed(), 3, "Should have 1 + 2 = 3 trades");
        
        println!("  ✅ Trade count incremented correctly\n");
    }

    // Test 8: Bid price priority - higher bid matches first
    {
        println!("Test 8: Bid price priority");
        let mut engine = MatchingEngine::new();
        

        // Add buys at different prices
        let _ = engine.submit_order(create_limit_order(Side::Buy, 14000, 50));
        let _ = engine.submit_order(create_limit_order(Side::Buy, 14500, 50));

        // Sell at 14000 should match 14500 first (higher bid)
        let _ = engine.submit_order(create_limit_order(Side::Sell, 14000, 50));

        assert_eq!(engine.trades_executed(), 1);
        
        let book = engine.get_order_book("AAPL", 10);
        assert_eq!(book.bids.len(), 1, "One bid should remain");
        assert_eq!(book.bids[0].price, 14000, "14000 bid should remain (14500 was matched)");
        
        println!("  ✅ Bid price priority: higher bid matched first\n");
    }

    println!("========== All Correctness Tests Passed! ==========\n");
}
